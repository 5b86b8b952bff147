use vstd::prelude::*;

verus! {

/// The file name has the extension `png`: it ends in `.png` and has
/// something before that suffix (a bare `.png` is a hidden file without
/// extension).
pub open spec fn has_png_extension(name: Seq<char>) -> bool {
    name.len() > 4 && name.subrange(name.len() - 4, name.len() as int) == ".png"@
}

/// A name has the extension `png` exactly when it is a non-empty stem
/// followed by `.png`, however long the stem.
pub proof fn lemma_png_extension(name: Seq<char>)
    ensures
        has_png_extension(name) <==> exists|stem: Seq<char>|
            stem.len() > 0 && #[trigger] (stem + ".png"@) == name,
{
    reveal_strlit(".png");
    let n = name.len() as int;
    if has_png_extension(name) {
        let stem = name.subrange(0, n - 4);
        assert(stem + ".png"@ =~= name);
    }
    if exists|stem: Seq<char>| stem.len() > 0 && #[trigger] (stem + ".png"@) == name {
        let stem = choose|stem: Seq<char>| stem.len() > 0 && #[trigger] (stem + ".png"@) == name;
        assert(name.len() == stem.len() + 4);
        assert(name.subrange(n - 4, n) =~= ".png"@);
    }
}

/// The file names of the fixed textures, which are not artwork.
pub open spec fn is_reserved_texture(name: Seq<char>) -> bool {
    ||| name == "background.png"@
    ||| name == "final.png"@
    ||| name == "sky.png"@
    ||| name == "floor.png"@
}

/// The parts joined with `sep` between each two of them.
pub open spec fn joined(parts: Seq<Seq<char>>, sep: Seq<char>) -> Seq<char>
    decreases parts.len(),
{
    if parts.len() == 0 {
        Seq::empty()
    } else if parts.len() == 1 {
        parts[0]
    } else {
        joined(parts.drop_last(), sep) + sep + parts.last()
    }
}

/// The texts of a list of strings.
pub open spec fn texts(v: Seq<String>) -> Seq<Seq<char>> {
    v.map_values(|s: String| s@)
}

/// Whether two texts are equal, character by character.
fn same_text(a: &str, b: &str) -> (r: bool)
    ensures
        r == (a@ == b@),
{
    let n = a.unicode_len();
    if n != b.unicode_len() {
        return false;
    }
    let mut i: usize = 0;
    while i < n
        invariant
            n == a@.len(),
            n == b@.len(),
            i <= n,
            forall|k: int| 0 <= k < i ==> a@[k] == b@[k],
        decreases n - i,
    {
        if a.get_char(i) != b.get_char(i) {
            return false;
        }
        i += 1;
    }
    proof {
        assert(a@ =~= b@);
    }
    true
}

/// Whether `s` ends with `suffix`.
fn ends_with_text(s: &str, suffix: &str) -> (r: bool)
    ensures
        r == (s@.len() >= suffix@.len() && s@.subrange(s@.len() - suffix@.len(), s@.len() as int)
            == suffix@),
{
    let n = s.unicode_len();
    let m = suffix.unicode_len();
    if n < m {
        return false;
    }
    let start = n - m;
    let mut i: usize = 0;
    while i < m
        invariant
            n == s@.len(),
            m == suffix@.len(),
            start == n - m,
            i <= m,
            forall|k: int| 0 <= k < i ==> s@[start + k] == suffix@[k],
        decreases m - i,
    {
        if s.get_char(start + i) != suffix.get_char(i) {
            proof {
                assert(s@.subrange(start as int, n as int)[i as int] != suffix@[i as int]);
            }
            return false;
        }
        i += 1;
    }
    proof {
        assert(s@.subrange(start as int, n as int) =~= suffix@);
    }
    true
}

/// Whether a file of the texture folder holds museum artwork: a PNG image
/// that is not one of the fixed textures (background, final picture, sky,
/// floor).
pub fn is_artwork_file(name: &str) -> (r: bool)
    ensures
        r == (has_png_extension(name@) && !is_reserved_texture(name@)),
        r <==> (exists|stem: Seq<char>| stem.len() > 0 && #[trigger] (stem + ".png"@) == name@)
            && !is_reserved_texture(name@),
{
    proof {
        lemma_png_extension(name@);
    }
    proof {
        reveal_strlit(".png");
    }
    let png = name.unicode_len() > 4 && ends_with_text(name, ".png");
    if !png {
        return false;
    }
    let reserved = same_text(name, "background.png") || same_text(name, "final.png")
        || same_text(name, "sky.png") || same_text(name, "floor.png");
    !reserved
}

/// The parts joined with `sep`.
fn join_texts(parts: &Vec<String>, sep: &str) -> (r: String)
    ensures
        r@ == joined(texts(parts@), sep@),
{
    let ghost t = texts(parts@);
    let mut r = String::new();
    let mut i: usize = 0;
    while i < parts.len()
        invariant
            t == texts(parts@),
            i <= parts@.len(),
            r@ == joined(t.take(i as int), sep@),
        decreases parts@.len() - i,
    {
        proof {
            assert(t.take(i as int + 1).drop_last() =~= t.take(i as int));
            assert(t.take(i as int + 1).last() == parts@[i as int]@);
        }
        if i > 0 {
            r.append(sep);
        } else {
            proof {
                assert(r@ =~= Seq::<char>::empty());
            }
        }
        r.append(parts[i].as_str());
        proof {
            if i == 0 {
                assert(r@ =~= joined(t.take(1), sep@));
            }
        }
        i += 1;
    }
    proof {
        assert(t.take(parts@.len() as int) =~= t);
    }
    r
}

/// What happened when one candidate texture file was tried.
pub enum ImageAttempt {
    /// The file does not exist.
    Missing,
    /// The file was loaded.
    Loaded,
    /// The file exists but could not be loaded, for this reason.
    Failed(String),
}

/// One step of trying candidate texture files in order: returns whether the
/// search is over because this candidate loaded. A candidate that failed to
/// load adds its error to `errors`; a missing one is skipped silently.
pub fn image_attempt_step(errors: &mut Vec<String>, attempt: ImageAttempt) -> (done: bool)
    ensures
        done <==> attempt is Loaded,
        match attempt {
            ImageAttempt::Failed(e) => final(errors)@ == old(errors)@.push(e),
            _ => final(errors)@ == old(errors)@,
        },
{
    match attempt {
        ImageAttempt::Missing => false,
        ImageAttempt::Loaded => true,
        ImageAttempt::Failed(e) => {
            errors.push(e);
            false
        },
    }
}

/// The error for a set of candidate texture files none of which could be
/// loaded: the load errors joined with `"; "`, or, when none of the files
/// exists, a message listing the candidates.
pub fn image_load_error(paths: &Vec<String>, errors: &Vec<String>) -> (msg: String)
    ensures
        msg@ == if errors@.len() == 0 {
            "None of these texture files exist: "@ + joined(texts(paths@), ", "@)
        } else {
            joined(texts(errors@), "; "@)
        },
{
    if errors.len() == 0 {
        let mut msg = "None of these texture files exist: ".to_string();
        let listed = join_texts(paths, ", ");
        msg.append(listed.as_str());
        msg
    } else {
        join_texts(errors, "; ")
    }
}

} // verus!
