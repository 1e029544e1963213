use vstd::prelude::*;
use crate::geom::Point;
use crate::grid::{on_board, cell_index, lemma_index_bounds};
use crate::objects::PlacedObject;
use crate::template::{MapTemplate, ObjectTypeRule};
use crate::units::world::{
    Tile, TileMap, TileObject, tile_ok, TREE_NUTS_MAX, BUSH_BERRIES_MAX,
};

verus! {

/// The UTF-8 bytes of the lowercase form of a string.
pub uninterp spec fn lowercase_bytes(s: Seq<char>) -> Seq<u8>;

/// Relies on `str::to_lowercase` (then `String::into_bytes`): the lowercase form
/// of a string depends on its characters alone.
#[verifier::external_body]
fn lowercase_utf8(s: &String) -> (r: Vec<u8>)
    ensures
        r@ == lowercase_bytes(s@),
{
    s.to_lowercase().into_bytes()
}

/// `needle` occurs in `hay` at some position.
pub open spec fn has_sub(hay: Seq<u8>, needle: Seq<u8>) -> bool {
    exists|i: int| 0 <= i <= hay.len() - needle.len() && #[trigger] hay.subrange(i, i + needle.len()) == needle
}

pub open spec fn word_tree() -> Seq<u8> {
    seq![116u8, 114u8, 101u8, 101u8]
}

pub open spec fn word_bush() -> Seq<u8> {
    seq![98u8, 117u8, 115u8, 104u8]
}

pub open spec fn word_cave() -> Seq<u8> {
    seq![99u8, 97u8, 118u8, 101u8]
}

/// Whether `needle` occurs in `hay`.
pub fn contains_bytes(hay: &Vec<u8>, needle: &Vec<u8>) -> (r: bool)
    ensures
        r == has_sub(hay@, needle@),
{
    if needle.len() > hay.len() {
        return false;
    }
    if needle.len() == 0 {
        assert(hay@.subrange(0int, 0int + needle@.len()) =~= needle@);
        return true;
    }
    let last = hay.len() - needle.len();
    let mut i: usize = 0;
    while i <= last
        invariant
            last == hay@.len() - needle@.len(),
            1 <= needle@.len() <= hay@.len(),
            hay@.len() == hay.len(),
            i <= last + 1,
            forall|k: int| 0 <= k < i ==> #[trigger] hay@.subrange(k, k + needle@.len()) != needle@,
        decreases last + 1 - i,
    {
        let mut j: usize = 0;
        let mut same = true;
        while j < needle.len()
            invariant
                i <= last,
                last == hay@.len() - needle@.len(),
                1 <= needle@.len() <= hay@.len(),
                hay@.len() == hay.len(),
                j <= needle@.len(),
                same == (forall|q: int| 0 <= q < j ==> hay@[i + q] == needle@[q]),
            decreases needle@.len() - j,
        {
            if hay[i + j] != needle[j] {
                same = false;
            }
            j = j + 1;
        }
        if same {
            assert(hay@.subrange(i as int, i + needle@.len()) =~= needle@);
            return true;
        }
        proof {
            let q = choose|q: int| 0 <= q < needle@.len() && hay@[i + q] != needle@[q];
            assert(hay@.subrange(i as int, i + needle@.len())[q] != needle@[q]);
        }
        i = i + 1;
    }
    false
}

/// The object a lowercase type name stands for: one whose name holds "tree" is
/// a tree, else "bush" a bush, else "cave" a cave; any other is nothing.
pub open spec fn object_of_lowered(lowered: Seq<u8>) -> Option<TileObject> {
    if has_sub(lowered, word_tree()) {
        Some(TileObject::Tree)
    } else if has_sub(lowered, word_bush()) {
        Some(TileObject::Bush)
    } else if has_sub(lowered, word_cave()) {
        Some(TileObject::Cave)
    } else {
        None
    }
}

pub fn object_kind_for(lowered: &Vec<u8>) -> (r: Option<TileObject>)
    ensures
        r == object_of_lowered(lowered@),
{
    let tree: Vec<u8> = vec![116u8, 114u8, 101u8, 101u8];
    let bush: Vec<u8> = vec![98u8, 117u8, 115u8, 104u8];
    let cave: Vec<u8> = vec![99u8, 97u8, 118u8, 101u8];
    assert(tree@ =~= word_tree());
    assert(bush@ =~= word_bush());
    assert(cave@ =~= word_cave());
    if contains_bytes(lowered, &tree) {
        Some(TileObject::Tree)
    } else if contains_bytes(lowered, &bush) {
        Some(TileObject::Bush)
    } else if contains_bytes(lowered, &cave) {
        Some(TileObject::Cave)
    } else {
        None
    }
}

/// The object a type name stands for, matched case-insensitively.
pub fn object_for_name(name: &String) -> (r: Option<TileObject>)
    ensures
        r == object_of_lowered(lowercase_bytes(name@)),
{
    let lowered = lowercase_utf8(name);
    object_kind_for(&lowered)
}

/// A tile with an object put on it: a tree comes with full nuts, a bush with
/// full berries.
pub open spec fn with_object(t: Tile, k: Option<TileObject>) -> Tile {
    match k {
        Some(TileObject::Tree) => Tile { object: k, nuts_max: TREE_NUTS_MAX, nuts: TREE_NUTS_MAX, ..t },
        Some(TileObject::Bush) => Tile { object: k, berries_max: BUSH_BERRIES_MAX, berries: BUSH_BERRIES_MAX, ..t },
        Some(TileObject::Cave) => Tile { object: k, ..t },
        None => t,
    }
}

/// The tiles after the objects are folded in, one after another.
pub open spec fn with_objects(tiles: Seq<Tile>, w: int, h: int, objs: Seq<PlacedObject>, types: Seq<ObjectTypeRule>) -> Seq<Tile>
    decreases objs.len(),
{
    if objs.len() == 0 {
        tiles
    } else {
        let prev = with_objects(tiles, w, h, objs.drop_last(), types);
        let o = objs.last();
        if on_board(w, h, o.pos.x as int, o.pos.y as int) {
            let i = cell_index(w, o.pos.x as int, o.pos.y as int);
            prev.update(i, with_object(prev[i], object_of_lowered(lowercase_bytes(types[o.kind as int].name@))))
        } else {
            prev
        }
    }
}

/// Puts each placed object on its tile, resolving its type by name.
pub fn apply_objects_to_tilemap(map: &mut TileMap, tpl: &MapTemplate, objects: &Vec<PlacedObject>)
    requires
        old(map).wf(),
        forall|j: int| 0 <= j < objects@.len() ==> ((#[trigger] objects@[j]).kind as int) < tpl.objects.types@.len(),
    ensures
        final(map).wf(),
        final(map).width == old(map).width,
        final(map).height == old(map).height,
        final(map).tiles@ == with_objects(old(map).tiles@, old(map).width as int, old(map).height as int, objects@, tpl.objects.types@),
{
    let ghost t0 = map.tiles@;
    let mut j: usize = 0;
    while j < objects.len()
        invariant
            map.wf(),
            map.width == old(map).width,
            map.height == old(map).height,
            t0 == old(map).tiles@,
            j <= objects@.len(),
            forall|q: int| 0 <= q < objects@.len() ==> ((#[trigger] objects@[q]).kind as int) < tpl.objects.types@.len(),
            map.tiles@ == with_objects(t0, map.width as int, map.height as int, objects@.take(j as int), tpl.objects.types@),
        decreases objects@.len() - j,
    {
        let o = objects[j];
        let ghost prev = map.tiles@;
        proof {
            assert(objects@.take(j + 1).drop_last() == objects@.take(j as int));
            assert(objects@.take(j + 1).last() == o);
            assert(with_objects(t0, map.width as int, map.height as int, objects@.take(j + 1), tpl.objects.types@)
                == if on_board(map.width as int, map.height as int, o.pos.x as int, o.pos.y as int) {
                    let i = cell_index(map.width as int, o.pos.x as int, o.pos.y as int);
                    prev.update(i, with_object(prev[i], object_of_lowered(lowercase_bytes(tpl.objects.types@[o.kind as int].name@))))
                } else {
                    prev
                });
        }
        match map.idx(o.pos) {
            Some(i) => {
                let k = object_for_name(&tpl.objects.types[o.kind as usize].name);
                let t = map.tiles[i];
                let t2 = match k {
                    Some(TileObject::Tree) => Tile { object: k, nuts_max: TREE_NUTS_MAX, nuts: TREE_NUTS_MAX, ..t },
                    Some(TileObject::Bush) => Tile { object: k, berries_max: BUSH_BERRIES_MAX, berries: BUSH_BERRIES_MAX, ..t },
                    Some(TileObject::Cave) => Tile { object: k, ..t },
                    None => t,
                };
                proof {
                    assert(tpl.objects.types@[o.kind as int] == tpl.objects.types@[o.kind as usize as int]);
                    assert(k == object_of_lowered(lowercase_bytes(tpl.objects.types@[o.kind as int].name@)));
                    assert(t == prev[i as int]);
                    assert(t2 == with_object(prev[i as int], k));
                    lemma_index_bounds(map.width as int, map.height as int, o.pos.x as int, o.pos.y as int);
                }
                map.tiles.set(i, t2);
                proof {
                    assert forall|q: int| 0 <= q < map.tiles@.len() implies tile_ok(#[trigger] map.tiles@[q]) by {
                        if q != i {
                        }
                    }
                }
            },
            None => {},
        }
        j = j + 1;
    }
    assert(objects@.take(objects@.len() as int) == objects@);
}

} // verus!
