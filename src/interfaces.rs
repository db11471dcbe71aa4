use vstd::prelude::*;

verus! {

/// What the interface picker needs to know of a network interface.
#[derive(Clone, Debug, PartialEq, Eq)]
pub struct InterfaceSummary {
    pub name: String,
    pub has_mac: bool,
    pub ip_count: usize,
}

/// An interface is offered when it has a hardware address and at least one
/// IP address.
pub open spec fn usable(i: InterfaceSummary) -> bool {
    i.has_mac && i.ip_count > 0
}

/// Whether `r` lists distinct positions of usable interfaces below `bound`,
/// those with more IP addresses first.
pub open spec fn ordered_usable(ifaces: Seq<InterfaceSummary>, r: Seq<usize>, bound: int) -> bool {
    &&& forall|a: int| 0 <= a < r.len() ==> (#[trigger] r[a]) < bound && usable(ifaces[r[a] as int])
    &&& forall|a: int, b: int| 0 <= a < r.len() && 0 <= b < r.len() && a != b ==> r[a] != r[b]
    &&& forall|a: int, b: int|
        0 <= a < b < r.len() ==> ifaces[r[a] as int].ip_count >= ifaces[r[b] as int].ip_count
}

/// Puts position `i` after every entry with at least as many IP addresses.
fn insert_by_count(r: &mut Vec<usize>, ifaces: &Vec<InterfaceSummary>, i: usize)
    requires
        i < ifaces@.len(),
        usable(ifaces@[i as int]),
        ordered_usable(ifaces@, old(r)@, i as int),
    ensures
        ordered_usable(ifaces@, final(r)@, i + 1),
        final(r)@.contains(i),
        forall|x: usize| old(r)@.contains(x) ==> #[trigger] final(r)@.contains(x),
{
    let c = ifaces[i].ip_count;
    let mut pos: usize = 0;
    while pos < r.len() && ifaces[r[pos]].ip_count >= c
        invariant
            pos <= r@.len(),
            ordered_usable(ifaces@, r@, i as int),
            i < ifaces@.len(),
            c == ifaces@[i as int].ip_count,
            forall|a: int| 0 <= a < pos ==> ifaces@[(#[trigger] r@[a]) as int].ip_count >= c,
        decreases r@.len() - pos,
    {
        pos = pos + 1;
    }
    let ghost old_r = r@;
    assert forall|a: int| pos <= a < old_r.len() implies ifaces@[(#[trigger] old_r[a]) as int].ip_count < c by {
        assert(ifaces@[old_r[pos as int] as int].ip_count < c);
        if a > pos {
            assert(ifaces@[old_r[pos as int] as int].ip_count >= ifaces@[old_r[a] as int].ip_count);
        }
    }
    r.insert(pos, i);
    let ghost new_r = r@;
    assert(new_r == old_r.insert(pos as int, i));
    assert(forall|a: int| 0 <= a < pos ==> new_r[a] == old_r[a]);
    assert(forall|a: int| pos < a < new_r.len() ==> new_r[a] == old_r[a - 1]);
    assert(new_r[pos as int] == i);
    assert forall|a: int, b: int| 0 <= a < new_r.len() && 0 <= b < new_r.len() && a != b implies new_r[a] != new_r[b] by {
        if a != pos && b != pos {
            let a0 = if a < pos { a } else { a - 1 };
            let b0 = if b < pos { b } else { b - 1 };
            assert(new_r[a] == old_r[a0]);
            assert(new_r[b] == old_r[b0]);
        }
    }
    assert forall|a: int, b: int| 0 <= a < b < new_r.len() implies ifaces@[new_r[a] as int].ip_count >= ifaces@[new_r[b] as int].ip_count by {
        if a != pos && b != pos {
            let a0 = if a < pos { a } else { a - 1 };
            let b0 = if b < pos { b } else { b - 1 };
            assert(new_r[a] == old_r[a0]);
            assert(new_r[b] == old_r[b0]);
        }
    }
    assert(new_r.contains(i));
    assert forall|x: usize| old_r.contains(x) implies #[trigger] new_r.contains(x) by {
        let k = choose|k: int| 0 <= k < old_r.len() && old_r[k] == x;
        if k < pos {
            assert(new_r[k] == x);
        } else {
            assert(new_r[k + 1] == x);
        }
    }
}

/// The positions in `ifaces` of the usable interfaces, each once, those with
/// more IP addresses first (ties keep their order).
pub fn sorted_usable_interfaces(ifaces: &Vec<InterfaceSummary>) -> (r: Vec<usize>)
    ensures
        ordered_usable(ifaces@, r@, ifaces@.len() as int),
        forall|i: int| 0 <= i < ifaces@.len() && usable(#[trigger] ifaces@[i]) ==> r@.contains(i as usize),
{
    let mut r: Vec<usize> = Vec::new();
    let mut i: usize = 0;
    while i < ifaces.len()
        invariant
            i <= ifaces@.len(),
            ordered_usable(ifaces@, r@, i as int),
            forall|j: int| 0 <= j < i && usable(#[trigger] ifaces@[j]) ==> r@.contains(j as usize),
        decreases ifaces@.len() - i,
    {
        if ifaces[i].has_mac && ifaces[i].ip_count > 0 {
            insert_by_count(&mut r, ifaces, i);
        }
        i = i + 1;
    }
    r
}

} // verus!
