use crate::prefab_builder::prefab_levels::{RexImage, RexLayer};
use crate::prefab_builder::layers_ok;
use crate::tile_map::{cell_index, TileMap, TileType, MAX_DIMENSION};
use vstd::prelude::*;

verus! {

/// The character code that stands for floor in an image.
pub const FLOOR_CODE: u32 = 32;

/// The character code that stands for a wall in an image.
pub const WALL_CODE: u32 = 35;

/// The tiles after the first `k` cells of `layer`, taken row by row, were
/// drawn on a map `width` by `height`: floor and wall where the layer has
/// their codes on a cell that lies on the map, nothing elsewhere.
pub open spec fn layer_tiles(
    tiles: Seq<TileType>,
    width: int,
    height: int,
    layer: RexLayer,
    k: int,
) -> Seq<TileType>
    decreases k,
{
    if k <= 0 {
        tiles
    } else {
        let before = layer_tiles(tiles, width, height, layer, k - 1);
        let i = k - 1;
        let x = i % (layer.width as int);
        let y = i / (layer.width as int);
        if x < width && y < height && i < layer.cells@.len() {
            if layer.cells@[i] == FLOOR_CODE {
                before.update(cell_index(width, x, y), TileType::Floor)
            } else if layer.cells@[i] == WALL_CODE {
                before.update(cell_index(width, x, y), TileType::Wall)
            } else {
                before
            }
        } else {
            before
        }
    }
}

/// The tiles after the first `n` layers were drawn, one over the other.
pub open spec fn image_tiles(
    tiles: Seq<TileType>,
    width: int,
    height: int,
    layers: Seq<RexLayer>,
    n: int,
) -> Seq<TileType>
    decreases n,
{
    if n <= 0 {
        tiles
    } else {
        layer_tiles(
            image_tiles(tiles, width, height, layers, n - 1),
            width,
            height,
            layers[n - 1],
            layers[n - 1].width * layers[n - 1].height,
        )
    }
}

/// Draws one layer of an image on the map.
fn draw_layer(map: &mut TileMap, layer: &RexLayer)
    requires
        old(map).wf(),
        layer.width <= MAX_DIMENSION,
        layer.height <= MAX_DIMENSION,
    ensures
        final(map).wf(),
        final(map).same_but_tiles(old(map)),
        final(map).tiles@ == layer_tiles(
            old(map).tiles@,
            old(map).width as int,
            old(map).height as int,
            *layer,
            layer.width * layer.height,
        ),
{
    let ghost w = map.width as int;
    let ghost h = map.height as int;
    let ghost before = map.tiles@;
    let mut i: usize = 0;
    let mut y: usize = 0;
    proof {
        assert(layer.width * layer.height <= MAX_DIMENSION * MAX_DIMENSION) by (nonlinear_arith)
            requires
                0 <= layer.width <= MAX_DIMENSION,
                0 <= layer.height <= MAX_DIMENSION,
        ;
    }
    while y < layer.height
        invariant
            map.wf(),
            map.same_but_tiles(old(map)),
            w == map.width,
            h == map.height,
            before == old(map).tiles@,
            layer.width <= MAX_DIMENSION,
            layer.height <= MAX_DIMENSION,
            layer.width * layer.height <= 0x1000_0000,
            y <= layer.height,
            i == y * layer.width,
            map.tiles@ == layer_tiles(before, w, h, *layer, i as int),
        decreases layer.height - y,
    {
        proof {
            assert(y * layer.width + layer.width <= layer.width * layer.height)
                by (nonlinear_arith)
                requires
                    0 <= y < layer.height,
                    0 <= layer.width,
            ;
        }
        let mut x: usize = 0;
        while x < layer.width
            invariant
                map.wf(),
                map.same_but_tiles(old(map)),
                w == map.width,
                h == map.height,
                before == old(map).tiles@,
                layer.width <= MAX_DIMENSION,
                layer.height <= MAX_DIMENSION,
                layer.width * layer.height <= 0x1000_0000,
                y < layer.height,
                x <= layer.width,
                i == y * layer.width + x,
                y * layer.width + layer.width <= layer.width * layer.height,
                map.tiles@ == layer_tiles(before, w, h, *layer, i as int),
            decreases layer.width - x,
        {
            proof {
                vstd::arithmetic::div_mod::lemma_fundamental_div_mod_converse(
                    i as int,
                    layer.width as int,
                    y as int,
                    x as int,
                );
            }
            if x < map.width as usize && y < map.height as usize && i < layer.cells.len() {
                let idx = map.xy_idx(x as i32, y as i32);
                let code = layer.cells[i];
                if code == FLOOR_CODE {
                    map.tiles[idx] = TileType::Floor;
                } else if code == WALL_CODE {
                    map.tiles[idx] = TileType::Wall;
                }
            }
            i += 1;
            x += 1;
        }
        proof {
            assert(y * layer.width + layer.width == (y + 1) * layer.width) by (nonlinear_arith);
        }
        y += 1;
    }
    proof {
        assert(layer.height * layer.width == layer.width * layer.height) by (nonlinear_arith);
    }
}

/// Makes a map of the standard size at depth `new_depth` from an image:
/// walls, and what the layers of the image draw on them, one over the
/// other.
pub fn load_rex_map(new_depth: i32, image: &RexImage) -> (map: TileMap)
    requires
        layers_ok(image.layers@),
    ensures
        map.wf(),
        map.width == crate::tile_map::MAPWIDTH,
        map.height == crate::tile_map::MAPHEIGHT,
        map.depth == new_depth,
        map.tiles@ == image_tiles(
            Seq::new(3440, |i: int| TileType::Wall),
            80,
            43,
            image.layers@,
            image.layers@.len() as int,
        ),
{
    let mut map = TileMap::new(new_depth);
    let ghost blank = map.tiles@;
    proof {
        assert(map.width * map.height == 3440) by (nonlinear_arith)
            requires
                map.width == 80,
                map.height == 43,
        ;
        assert(blank =~= Seq::new(3440, |i: int| TileType::Wall));
    }
    let mut n: usize = 0;
    while n < image.layers.len()
        invariant
            layers_ok(image.layers@),
            map.wf(),
            map.width == crate::tile_map::MAPWIDTH,
            map.height == crate::tile_map::MAPHEIGHT,
            map.depth == new_depth,
            n <= image.layers@.len(),
            map.tiles@ == image_tiles(blank, 80, 43, image.layers@, n as int),
        decreases image.layers@.len() - n,
    {
        assert(image.layers@[n as int].width <= MAX_DIMENSION);
        draw_layer(&mut map, &image.layers[n]);
        n += 1;
    }
    map
}

} // verus!
