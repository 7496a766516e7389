//! Which chunk meshes a changed block makes stale: its own chunk, and each
//! neighbouring chunk whose border the block lies on.
use vstd::prelude::*;

verus! {

/// `d` with `c` appended unless it already holds it.
pub open spec fn push_new(d: Seq<(i32, i32)>, c: (i32, i32)) -> Seq<(i32, i32)> {
    if d.contains(c) {
        d
    } else {
        d.push(c)
    }
}

/// The stale chunks after a change to the block at column `(x, z)`: its
/// chunk, then the chunks to the west, east, north and south of it when the
/// block lies on that border.
pub open spec fn marked(d: Seq<(i32, i32)>, x: int, z: int) -> Seq<(i32, i32)> {
    let cx = x / 16;
    let cz = z / 16;
    let lx = x % 16;
    let lz = z % 16;
    let d0 = push_new(d, (cx as i32, cz as i32));
    let d1 = if lx == 0 { push_new(d0, ((cx - 1) as i32, cz as i32)) } else { d0 };
    let d2 = if lx == 15 { push_new(d1, ((cx + 1) as i32, cz as i32)) } else { d1 };
    let d3 = if lz == 0 { push_new(d2, (cx as i32, (cz - 1) as i32)) } else { d2 };
    if lz == 15 { push_new(d3, (cx as i32, (cz + 1) as i32)) } else { d3 }
}

fn push_if_new(dirty: &mut Vec<(i32, i32)>, c: (i32, i32))
    ensures
        final(dirty)@ == push_new(old(dirty)@, c),
{
    let mut i: usize = 0;
    while i < dirty.len()
        invariant
            i <= dirty@.len(),
            forall|j: int| 0 <= j < i ==> dirty@[j] != c,
        decreases dirty@.len() - i,
    {
        let e = dirty[i];
        if e.0 == c.0 && e.1 == c.1 {
            assert(dirty@.contains(c));
            return;
        }
        i += 1;
    }
    assert(!dirty@.contains(c));
    dirty.push(c);
}

/// Marks stale the chunks that a change to the block at column `(x, z)`
/// touches.
pub fn mark_dirty(x: i32, z: i32, dirty: &mut Vec<(i32, i32)>)
    ensures
        final(dirty)@ == marked(old(dirty)@, x as int, z as int),
{
    let cx = match x.checked_div_euclid(16) {
        Some(q) => q,
        None => 0,
    };
    let cz = match z.checked_div_euclid(16) {
        Some(q) => q,
        None => 0,
    };
    let lx = match x.checked_rem_euclid(16) {
        Some(r) => r,
        None => 0,
    };
    let lz = match z.checked_rem_euclid(16) {
        Some(r) => r,
        None => 0,
    };
    push_if_new(dirty, (cx, cz));
    if lx == 0 {
        push_if_new(dirty, (cx - 1, cz));
    }
    if lx == 15 {
        push_if_new(dirty, (cx + 1, cz));
    }
    if lz == 0 {
        push_if_new(dirty, (cx, cz - 1));
    }
    if lz == 15 {
        push_if_new(dirty, (cx, cz + 1));
    }
}

/// Marking keeps a list free of repeats, and leaves every chunk it held
/// in place.
pub proof fn law_mark_dirty_no_repeats(d: Seq<(i32, i32)>, x: int, z: int)
    requires
        d.no_duplicates(),
    ensures
        marked(d, x, z).no_duplicates(),
        marked(d, x, z).subrange(0, d.len() as int) == d,
        marked(d, x, z).contains(((x / 16) as i32, (z / 16) as i32)),
{
    let cx = x / 16;
    let cz = z / 16;
    let d0 = push_new(d, (cx as i32, cz as i32));
    lemma_push_new(d, (cx as i32, cz as i32));
    let lx = x % 16;
    let lz = z % 16;
    let d1 = if lx == 0 { push_new(d0, ((cx - 1) as i32, cz as i32)) } else { d0 };
    lemma_push_new(d0, ((cx - 1) as i32, cz as i32));
    let d2 = if lx == 15 { push_new(d1, ((cx + 1) as i32, cz as i32)) } else { d1 };
    lemma_push_new(d1, ((cx + 1) as i32, cz as i32));
    let d3 = if lz == 0 { push_new(d2, (cx as i32, (cz - 1) as i32)) } else { d2 };
    lemma_push_new(d2, (cx as i32, (cz - 1) as i32));
    lemma_push_new(d3, (cx as i32, (cz + 1) as i32));
    let d4 = marked(d, x, z);
    assert(d4.subrange(0, d.len() as int) =~= d) by {
        assert(d0.subrange(0, d.len() as int) =~= d);
        assert(d1.subrange(0, d.len() as int) =~= d) by {
            assert(d1.subrange(0, d0.len() as int) =~= d0);
        }
        assert(d2.subrange(0, d.len() as int) =~= d) by {
            assert(d2.subrange(0, d1.len() as int) =~= d1);
            assert(d1.subrange(0, d0.len() as int) =~= d0);
        }
        assert(d3.subrange(0, d.len() as int) =~= d) by {
            assert(d3.subrange(0, d2.len() as int) =~= d2);
            assert(d2.subrange(0, d1.len() as int) =~= d1);
            assert(d1.subrange(0, d0.len() as int) =~= d0);
        }
        assert(d4.subrange(0, d3.len() as int) =~= d3);
        assert(d3.subrange(0, d2.len() as int) =~= d2);
        assert(d2.subrange(0, d1.len() as int) =~= d1);
        assert(d1.subrange(0, d0.len() as int) =~= d0);
    }
}

proof fn lemma_push_new(d: Seq<(i32, i32)>, c: (i32, i32))
    ensures
        d.no_duplicates() ==> push_new(d, c).no_duplicates(),
        push_new(d, c).contains(c),
        forall|e: (i32, i32)| d.contains(e) ==> push_new(d, c).contains(e),
        push_new(d, c).len() >= d.len(),
        push_new(d, c).subrange(0, d.len() as int) == d,
{
    if !d.contains(c) {
        assert(d.push(c)[d.len() as int] == c);
        assert(d.push(c).subrange(0, d.len() as int) =~= d);
        assert forall|e: (i32, i32)| d.contains(e) implies push_new(d, c).contains(e) by {
            let k = choose|k: int| 0 <= k < d.len() && d[k] == e;
            assert(d.push(c)[k] == e);
        }
    } else {
        assert(d.subrange(0, d.len() as int) =~= d);
    }
}

} // verus!
