use vstd::prelude::*;

use crate::color::Color;
use crate::exhibits::{assign_exhibits, exhibit_assignment, scan_faces, ExhibitMap};
use crate::grid::{rows, Maze};
use crate::layout::{final_wall_of, find_final_wall, is_final_wall, pos_of, searchable};

verus! {

/// A texture: `width` by `height` colours stored row by row.
pub struct WallTexture {
    width: usize,
    height: usize,
    pixels: Vec<Color>,
}

proof fn lemma_texel_index(w: int, h: int, x: int, y: int)
    by (nonlinear_arith)
    requires
        0 <= x < w,
        0 <= y < h,
    ensures
        0 <= y * w + x < w * h,
{
    assert(y * w + x < y * w + w);
    assert(y * w + w == (y + 1) * w);
    assert((y + 1) * w <= h * w);
}

impl WallTexture {
    #[verifier::type_invariant]
    spec fn shape_ok(self) -> bool {
        self.pixels@.len() == self.width * self.height
    }

    /// The width in texels.
    pub closed spec fn tex_width(self) -> nat {
        self.width as nat
    }

    /// The height in texels.
    pub closed spec fn tex_height(self) -> nat {
        self.height as nat
    }

    /// The texels, row by row.
    pub closed spec fn texels(self) -> Seq<Color> {
        self.pixels@
    }

    /// A texture from its texels, row by row; `None` unless there are exactly
    /// `width * height` of them.
    pub fn from_pixels(width: usize, height: usize, pixels: Vec<Color>) -> (t: Option<WallTexture>)
        ensures
            t is Some <==> pixels@.len() == width * height,
            t matches Some(t) ==> t.tex_width() == width && t.tex_height() == height && t.texels()
                == pixels@,
    {
        let len = pixels.len();
        match width.checked_mul(height) {
            Some(n) => {
                if pixels.len() == n {
                    Some(WallTexture { width, height, pixels })
                } else {
                    None
                }
            },
            None => {
                None
            },
        }
    }

    /// The width in texels.
    pub fn width(&self) -> (w: usize)
        ensures
            w == self.tex_width(),
    {
        self.width
    }

    /// The height in texels.
    pub fn height(&self) -> (h: usize)
        ensures
            h == self.tex_height(),
    {
        self.height
    }

    /// The texel in column `x` of row `y`.
    pub fn texel(&self, x: usize, y: usize) -> (c: Color)
        requires
            x < self.tex_width(),
            y < self.tex_height(),
        ensures
            c == self.texels()[y * self.tex_width() + x],
    {
        proof {
            use_type_invariant(self);
            lemma_texel_index(self.width as int, self.height as int, x as int, y as int);
        }
        let _count = self.pixels.len();
        self.pixels[y * self.width + x]
    }
}

/// The textures of the museum: a composed wall for each artwork, the final
/// wall, the sky and the floor, with the artwork assigned to each wall face
/// and the position of the final wall.
pub struct TextureManager {
    exhibits: ExhibitMap,
    artwork_walls: Vec<WallTexture>,
    final_texture: WallTexture,
    sky_texture: WallTexture,
    floor_texture: WallTexture,
    final_wall: (usize, usize),
}

/// The message of the error for a museum without artwork.
pub open spec fn no_artwork_message() -> Seq<char> {
    "No museum artwork was found in textures/"@
}

/// The maze is a grid that the final-wall search accepts, with fewer wall
/// faces than a `usize` counts.
pub open spec fn museum_grid(g: Seq<Seq<char>>) -> bool {
    &&& searchable(g)
    &&& scan_faces(g).len() < usize::MAX
}

impl TextureManager {
    #[verifier::type_invariant]
    spec fn exhibits_in_range(self) -> bool {
        &&& self.artwork_walls@.len() > 0
        &&& forall|f: (int, int, int)|
            #[trigger] self.exhibits@.contains_key(f) ==> 0 <= self.exhibits@[f]
                < self.artwork_walls@.len()
    }

    /// The artwork assigned to each wall face.
    pub closed spec fn exhibit_map(self) -> Map<(int, int, int), int> {
        self.exhibits@
    }

    /// The composed wall of each artwork.
    pub closed spec fn artworks(self) -> Seq<WallTexture> {
        self.artwork_walls@
    }

    /// The wall that shows the final picture.
    pub closed spec fn final_wall_pos(self) -> (usize, usize) {
        self.final_wall
    }

    /// The texture of the final wall.
    pub closed spec fn final_tex(self) -> WallTexture {
        self.final_texture
    }

    /// The sky texture.
    pub closed spec fn sky_tex(self) -> WallTexture {
        self.sky_texture
    }

    /// The floor texture.
    pub closed spec fn floor_tex(self) -> WallTexture {
        self.floor_texture
    }

    /// Puts the museum together: fails when there is no artwork; otherwise
    /// hangs the artworks on the wall faces (see `assign_exhibits`) and
    /// chooses the final wall (see `find_final_wall`). `artwork_walls[i]` is
    /// the wall texture that shows artwork `i`; the first one also serves as
    /// the wall of any face without an assignment.
    pub fn from_parts(
        maze: &Maze,
        artwork_walls: Vec<WallTexture>,
        final_texture: WallTexture,
        sky_texture: WallTexture,
        floor_texture: WallTexture,
    ) -> (r: Result<TextureManager, String>)
        requires
            artwork_walls@.len() > 0 ==> museum_grid(rows(*maze)),
        ensures
            artwork_walls@.len() == 0 <==> r is Err,
            r matches Err(msg) ==> msg@ == no_artwork_message(),
            r matches Ok(tm) ==> {
                &&& tm.exhibit_map() == exhibit_assignment(
                    rows(*maze),
                    artwork_walls@.len() as int,
                )
                &&& tm.artworks() == artwork_walls@
                &&& pos_of(tm.final_wall_pos()) == final_wall_of(rows(*maze))
                &&& is_final_wall(rows(*maze), pos_of(tm.final_wall_pos()))
                &&& tm.final_tex() == final_texture
                &&& tm.sky_tex() == sky_texture
                &&& tm.floor_tex() == floor_texture
            },
    {
        if artwork_walls.len() == 0 {
            return Err("No museum artwork was found in textures/".to_string());
        }
        let exhibits = assign_exhibits(maze, artwork_walls.len());
        let final_wall = find_final_wall(maze);
        proof {
            let order = crate::exhibits::first_seen(scan_faces(rows(*maze)));
            assert forall|f: (int, int, int)| #[trigger] exhibits@.contains_key(f) implies 0
                <= exhibits@[f] < artwork_walls@.len() by {
                assert(exhibits@[f] == order.index_of(f) % (artwork_walls@.len() as int));
            }
        }
        Ok(
            TextureManager {
                exhibits,
                artwork_walls,
                final_texture,
                sky_texture,
                floor_texture,
                final_wall,
            },
        )
    }

    /// The texture for the face of wall cell `(map_x, map_y)` seen from
    /// `wall_side`: the final texture on the final wall (whatever the side),
    /// else the wall of the artwork assigned to that face, else the wall of
    /// the first artwork.
    pub fn wall_texture(&self, map_x: usize, map_y: usize, wall_side: usize) -> (t: &WallTexture)
        ensures
            (map_x, map_y) == self.final_wall_pos() ==> *t == self.final_tex(),
            (map_x, map_y) != self.final_wall_pos() ==> *t == if self.exhibit_map().contains_key(
                (map_x as int, map_y as int, wall_side as int),
            ) {
                self.artworks()[self.exhibit_map()[(map_x as int, map_y as int, wall_side as int)]]
            } else {
                self.artworks()[0]
            },
    {
        proof {
            use_type_invariant(self);
        }
        if map_x == self.final_wall.0 && map_y == self.final_wall.1 {
            &self.final_texture
        } else {
            match self.exhibits.get(map_x, map_y, wall_side) {
                Some(i) => &self.artwork_walls[i],
                None => &self.artwork_walls[0],
            }
        }
    }

    /// The sky texture.
    pub fn sky_texture(&self) -> (t: &WallTexture)
        ensures
            *t == self.sky_tex(),
    {
        &self.sky_texture
    }

    /// The floor texture.
    pub fn floor_texture(&self) -> (t: &WallTexture)
        ensures
            *t == self.floor_tex(),
    {
        &self.floor_texture
    }

    /// The wall that shows the final picture.
    pub fn final_wall(&self) -> (w: (usize, usize))
        ensures
            w == self.final_wall_pos(),
    {
        self.final_wall
    }
}

} // verus!
