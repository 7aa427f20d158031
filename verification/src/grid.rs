//! Droplets and the snapshot of the device that planning reads.

use crate::geometry::{Location, Region};
use vstd::prelude::*;

verus! {

/// The identity of a droplet: a number, and the tag of the process that made
/// it.
#[derive(Clone, Copy, Debug, PartialEq, Eq, Structural, Hash)]
pub struct DropletId {
    pub id: usize,
    pub process_id: usize,
}

impl DropletId {
    /// The identity as a pair of integers, `(id, process_id)`: the key under
    /// which a droplet's route is filed.
    pub open spec fn spec_key(self) -> (usize, usize) {
        (self.id, self.process_id)
    }

    #[verifier::when_used_as_spec(spec_key)]
    pub fn key(self) -> (k: (usize, usize))
        ensures
            k == self.spec_key(),
    {
        (self.id, self.process_id)
    }
}

/// A droplet resident on the device. Planning carries `volume` through and
/// never reads it.
#[derive(Clone, Copy, Debug, PartialEq, Eq, Structural)]
pub struct Droplet {
    pub id: DropletId,
    pub location: Location,
    pub dimensions: Location,
    pub volume: u64,
}

impl Droplet {
    /// The cells under the droplet.
    pub open spec fn region(self) -> Region {
        Region { location: self.location, dimensions: self.dimensions }
    }

    /// The droplet covers at least one cell and its top-left cell has no
    /// negative coordinate.
    pub open spec fn valid(self) -> bool {
        &&& self.location.y >= 0
        &&& self.location.x >= 0
        &&& self.dimensions.y > 0
        &&& self.dimensions.x > 0
    }

    pub fn new(id: DropletId, volume: u64, location: Location, dimensions: Location) -> (d: Droplet)
        requires
            location.y >= 0,
            location.x >= 0,
            dimensions.y > 0,
            dimensions.x > 0,
        ensures
            d == (Droplet { id, location, dimensions, volume }),
            d.valid(),
    {
        Droplet { id, location, dimensions, volume }
    }

    /// Whether the droplet covers at least one cell and its top-left cell has
    /// no negative coordinate.
    pub fn is_valid(&self) -> (r: bool)
        ensures
            r == self.valid(),
    {
        self.location.y >= 0 && self.location.x >= 0 && self.dimensions.y > 0 && self.dimensions.x
            > 0
    }

    /// The cells under the droplet.
    pub fn footprint(&self) -> (r: Region)
        ensures
            r == self.region(),
    {
        Region { location: self.location, dimensions: self.dimensions }
    }
}

/// The first droplet of `s` named `id`.
pub open spec fn find_droplet(s: Seq<Droplet>, id: DropletId) -> Option<Droplet>
    decreases s.len(),
{
    if s.len() == 0 {
        None
    } else if s[0].id == id {
        Some(s[0])
    } else {
        find_droplet(s.skip(1), id)
    }
}

/// What `find_droplet` finds is a droplet of `s` under that name; it finds
/// none only where no droplet of `s` has the name.
pub proof fn lemma_find_droplet(s: Seq<Droplet>, id: DropletId)
    ensures
        match find_droplet(s, id) {
            Some(d) => d.id == id && s.contains(d),
            None => forall|i: int| 0 <= i < s.len() ==> (#[trigger] s[i]).id != id,
        },
    decreases s.len(),
{
    if s.len() == 0 {
    } else if s[0].id == id {
        assert(s.contains(s[0]));
    } else {
        let rest = s.skip(1);
        lemma_find_droplet(rest, id);
        match find_droplet(rest, id) {
            Some(d) => {
                let i = choose|i: int| 0 <= i < rest.len() && rest[i] == d;
                assert(s[i + 1] == d);
            },
            None => {
                assert forall|i: int| 0 <= i < s.len() implies (#[trigger] s[i]).id != id by {
                    if i > 0 {
                        assert(rest[i - 1] == s[i]);
                    }
                }
            },
        }
    }
}

/// No two droplets of `s` share a name.
pub open spec fn distinct_ids(s: Seq<Droplet>) -> bool {
    forall|i: int, j: int| 0 <= i < j < s.len() ==> (#[trigger] s[i]).id != (#[trigger] s[j]).id
}

/// No two droplets of `s` share a cell.
pub open spec fn collision_free(s: Seq<Droplet>) -> bool {
    forall|i: int, j: int|
        0 <= i < j < s.len() ==> !(#[trigger] s[i]).region().overlaps((#[trigger] s[j]).region())
}

/// Where names are distinct, the droplet at index `i` is the one found under
/// its name.
pub proof fn lemma_find_distinct(s: Seq<Droplet>, i: int)
    requires
        distinct_ids(s),
        0 <= i < s.len(),
    ensures
        find_droplet(s, s[i].id) == Some(s[i]),
    decreases s.len(),
{
    if i > 0 {
        let rest = s.skip(1);
        assert forall|a: int, b: int| 0 <= a < b < rest.len() implies (#[trigger] rest[a]).id != (
        #[trigger] rest[b]).id by {
            assert(rest[a] == s[a + 1] && rest[b] == s[b + 1]);
        }
        assert(rest[i - 1] == s[i]);
        lemma_find_distinct(rest, i - 1);
        assert(s[0].id != s[i].id);
    }
}

/// The state of the device at the start of a tick: the extent of the grid and
/// the droplets on it, each under its own name.
pub struct GridView {
    height: i32,
    width: i32,
    droplets: Vec<Droplet>,
}

impl GridView {
    /// The number of rows.
    pub closed spec fn rows(&self) -> i32 {
        self.height
    }

    /// The number of columns.
    pub closed spec fn cols(&self) -> i32 {
        self.width
    }

    /// The resident droplets, in the order in which their names first came.
    pub closed spec fn droplets(&self) -> Seq<Droplet> {
        self.droplets@
    }

    /// Every name is held by one droplet only, and every droplet is valid.
    pub open spec fn wf(&self) -> bool {
        &&& distinct_ids(self.droplets())
        &&& forall|i: int| 0 <= i < self.droplets().len() ==> (#[trigger] self.droplets()[i]).valid()
    }

    /// The resident droplet named `id`, if there is one.
    pub open spec fn lookup(&self, id: DropletId) -> Option<Droplet> {
        find_droplet(self.droplets(), id)
    }

    /// A droplet named `id` is resident.
    pub open spec fn contains(&self, id: DropletId) -> bool {
        self.lookup(id).is_some()
    }

    /// No two resident droplets share a cell.
    pub open spec fn no_collision(&self) -> bool {
        collision_free(self.droplets())
    }

    /// A resident droplet is valid and carries the name it is found under.
    pub proof fn lemma_resident_valid(&self, id: DropletId)
        requires
            self.wf(),
            self.contains(id),
        ensures
            self.lookup(id).unwrap().valid(),
            self.lookup(id).unwrap().id == id,
            self.droplets().contains(self.lookup(id).unwrap()),
    {
        lemma_find_droplet(self.droplets(), id);
    }

    /// An empty grid of `height` rows and `width` columns.
    pub fn new(height: i32, width: i32) -> (gv: GridView)
        ensures
            gv.wf(),
            gv.rows() == height,
            gv.cols() == width,
            gv.droplets() == Seq::<Droplet>::empty(),
    {
        GridView { height, width, droplets: Vec::new() }
    }

    pub fn height(&self) -> (h: i32)
        ensures
            h == self.rows(),
    {
        self.height
    }

    pub fn width(&self) -> (w: i32)
        ensures
            w == self.cols(),
    {
        self.width
    }

    /// The number of resident droplets.
    pub fn len(&self) -> (n: usize)
        ensures
            n == self.droplets().len(),
    {
        self.droplets.len()
    }

    /// The resident droplet at position `i`.
    pub fn nth(&self, i: usize) -> (d: Droplet)
        requires
            i < self.droplets().len(),
        ensures
            d == self.droplets()[i as int],
    {
        self.droplets[i]
    }

    /// The position of the first droplet named `id`.
    fn position(&self, id: DropletId) -> (r: Option<usize>)
        ensures
            match r {
                Some(i) => i < self.droplets().len() && self.droplets()[i as int].id == id
                    && self.lookup(id) == Some(self.droplets()[i as int]),
                None => self.lookup(id).is_none(),
            },
    {
        let mut i: usize = 0;
        assert(self.droplets@.skip(0) =~= self.droplets@);
        while i < self.droplets.len()
            invariant
                i <= self.droplets@.len(),
                find_droplet(self.droplets@, id) == find_droplet(self.droplets@.skip(i as int), id),
            decreases self.droplets@.len() - i,
        {
            assert(self.droplets@.skip(i as int)[0] == self.droplets@[i as int]);
            if self.droplets[i].id == id {
                return Some(i);
            }
            assert(self.droplets@.skip(i as int).skip(1) =~= self.droplets@.skip(i as int + 1));
            i += 1;
        }
        None
    }

    /// The resident droplet named `id`.
    pub fn get(&self, id: DropletId) -> (r: Option<Droplet>)
        ensures
            r == self.lookup(id),
    {
        match self.position(id) {
            Some(i) => Some(self.droplets[i]),
            None => None,
        }
    }

    /// Puts `droplet` on the grid. A resident droplet of the same name is
    /// replaced in its place and handed back; otherwise the droplet comes
    /// last.
    pub fn insert(&mut self, droplet: Droplet) -> (r: Option<Droplet>)
        requires
            old(self).wf(),
            droplet.valid(),
        ensures
            final(self).wf(),
            final(self).rows() == old(self).rows(),
            final(self).cols() == old(self).cols(),
            r == old(self).lookup(droplet.id),
            final(self).lookup(droplet.id) == Some(droplet),
            forall|id: DropletId|
                id != droplet.id ==> final(self).lookup(id) == old(self).lookup(id),
            r.is_none() ==> final(self).droplets() == old(self).droplets().push(droplet),
            r.is_some() ==> exists|i: int|
                0 <= i < old(self).droplets().len() && old(self).droplets()[i].id == droplet.id
                    && final(self).droplets() == #[trigger] old(self).droplets().update(i, droplet),
    {
        let found = self.position(droplet.id);
        let ghost before = self.droplets@;
        match found {
            Some(i) => {
                let previous = self.droplets[i];
                self.droplets.set(i, droplet);
                proof {
                    let after = self.droplets@;
                    assert(after == before.update(i as int, droplet));
                    assert forall|a: int, b: int| 0 <= a < b < after.len() implies (
                    #[trigger] after[a]).id != (#[trigger] after[b]).id by {
                        assert(before[a].id != before[b].id);
                    }
                    lemma_find_distinct(after, i as int);
                    assert forall|id: DropletId| id != droplet.id implies find_droplet(after, id)
                        == find_droplet(before, id) by {
                        lemma_find_same_elsewhere(before, after, id);
                    }
                }
                Some(previous)
            },
            None => {
                self.droplets.push(droplet);
                proof {
                    let after = self.droplets@;
                    lemma_find_droplet(before, droplet.id);
                    assert forall|a: int, b: int| 0 <= a < b < after.len() implies (
                    #[trigger] after[a]).id != (#[trigger] after[b]).id by {
                        if b < before.len() {
                            assert(before[a].id != before[b].id);
                        } else {
                            assert(before[a].id != droplet.id);
                        }
                    }
                    lemma_find_distinct(after, before.len() as int);
                    assert forall|id: DropletId| id != droplet.id implies find_droplet(after, id)
                        == find_droplet(before, id) by {
                        lemma_find_push_other(before, droplet, id);
                    }
                }
                None
            },
        }
    }

    /// Takes the droplet named `id` off the grid and hands it back.
    pub fn remove(&mut self, id: DropletId) -> (r: Option<Droplet>)
        requires
            old(self).wf(),
        ensures
            final(self).wf(),
            final(self).rows() == old(self).rows(),
            final(self).cols() == old(self).cols(),
            r == old(self).lookup(id),
            final(self).lookup(id).is_none(),
            forall|other: DropletId|
                other != id ==> final(self).lookup(other) == old(self).lookup(other),
            old(self).no_collision() ==> final(self).no_collision(),
            r.is_none() ==> final(self).droplets() == old(self).droplets(),
            r.is_some() ==> exists|i: int|
                0 <= i < old(self).droplets().len() && old(self).droplets()[i].id == id
                    && final(self).droplets() == #[trigger] old(self).droplets().remove(i),
    {
        let found = self.position(id);
        let ghost before = self.droplets@;
        match found {
            Some(i) => {
                let taken = self.droplets.remove(i);
                proof {
                    let after = self.droplets@;
                    assert(after =~= before.remove(i as int));
                    assert forall|a: int, b: int| 0 <= a < b < after.len() implies (
                    #[trigger] after[a]).id != (#[trigger] after[b]).id by {
                        let a0 = if a < i { a } else { a + 1 };
                        let b0 = if b < i { b } else { b + 1 };
                        assert(after[a] == before[a0] && after[b] == before[b0]);
                        assert(before[a0].id != before[b0].id);
                    }
                    if collision_free(before) {
                        assert forall|a: int, b: int| 0 <= a < b < after.len() implies !(
                        #[trigger] after[a]).region().overlaps((#[trigger] after[b]).region()) by {
                            let a0 = if a < i { a } else { a + 1 };
                            let b0 = if b < i { b } else { b + 1 };
                            assert(after[a] == before[a0] && after[b] == before[b0]);
                            assert(!before[a0].region().overlaps(before[b0].region()));
                        }
                    }
                    lemma_find_droplet(after, id);
                    if find_droplet(after, id).is_some() {
                        let d = find_droplet(after, id).unwrap();
                        let k = choose|k: int| 0 <= k < after.len() && after[k] == d;
                        let k0 = if k < i { k } else { k + 1 };
                        assert(after[k] == before[k0]);
                        assert(before[k0].id != before[i as int].id);
                    }
                    assert forall|other: DropletId| other != id implies find_droplet(after, other)
                        == find_droplet(before, other) by {
                        lemma_find_after_remove(before, i as int, other);
                    }
                }
                Some(taken)
            },
            None => None,
        }
    }

    /// Whether no two resident droplets share a cell.
    pub fn check_no_collision(&self) -> (r: bool)
        ensures
            r == self.no_collision(),
    {
        let n = self.droplets.len();
        let mut j: usize = 0;
        while j < n
            invariant
                n == self.droplets@.len(),
                j <= n,
                forall|a: int, b: int|
                    0 <= a < b < j ==> !(#[trigger] self.droplets@[a]).region().overlaps(
                        (#[trigger] self.droplets@[b]).region(),
                    ),
            decreases n - j,
        {
            let second = self.droplets[j].footprint();
            let mut i: usize = 0;
            while i < j
                invariant
                    n == self.droplets@.len(),
                    j < n,
                    i <= j,
                    second == self.droplets@[j as int].region(),
                    forall|a: int|
                        0 <= a < i ==> !(#[trigger] self.droplets@[a]).region().overlaps(second),
                decreases j - i,
            {
                let first = self.droplets[i].footprint();
                if first.intersects(&second) {
                    assert(self.droplets@[i as int].region().overlaps(
                        self.droplets@[j as int].region(),
                    ));
                    return false;
                }
                i += 1;
            }
            j += 1;
        }
        true
    }
}

/// Replacing droplets by others of the same names changes nothing for a name
/// whose droplets are untouched.
proof fn lemma_find_same_elsewhere(before: Seq<Droplet>, after: Seq<Droplet>, id: DropletId)
    requires
        before.len() == after.len(),
        forall|k: int|
            0 <= k < before.len() ==> (#[trigger] after[k] == before[k] || (before[k].id != id
                && after[k].id != id)),
    ensures
        find_droplet(after, id) == find_droplet(before, id),
    decreases before.len(),
{
    if before.len() > 0 {
        let b = before.skip(1);
        let a = after.skip(1);
        assert forall|k: int| 0 <= k < b.len() implies (#[trigger] a[k] == b[k] || (b[k].id != id
            && a[k].id != id)) by {
            assert(after[k + 1] == before[k + 1] || (before[k + 1].id != id && after[k + 1].id
                != id));
        }
        assert(after[0] == before[0] || (before[0].id != id && after[0].id != id));
        lemma_find_same_elsewhere(b, a, id);
    }
}

/// A droplet added at the end is not found under another name.
proof fn lemma_find_push_other(s: Seq<Droplet>, d: Droplet, id: DropletId)
    requires
        id != d.id,
    ensures
        find_droplet(s.push(d), id) == find_droplet(s, id),
    decreases s.len(),
{
    let t = s.push(d);
    if s.len() == 0 {
        reveal_with_fuel(find_droplet, 2);
        assert(t.skip(1).len() == 0);
    } else {
        assert(t[0] == s[0]);
        assert(t.skip(1) =~= s.skip(1).push(d));
        lemma_find_push_other(s.skip(1), d, id);
    }
}

/// Taking a droplet out changes nothing for another name.
proof fn lemma_find_after_remove(s: Seq<Droplet>, i: int, id: DropletId)
    requires
        0 <= i < s.len(),
        s[i].id != id,
    ensures
        find_droplet(s.remove(i), id) == find_droplet(s, id),
    decreases s.len(),
{
    let t = s.remove(i);
    if i == 0 {
        assert(t =~= s.skip(1));
    } else {
        assert(t[0] == s[0]);
        assert(t.skip(1) =~= s.skip(1).remove(i - 1));
        assert(s.skip(1)[i - 1] == s[i]);
        lemma_find_after_remove(s.skip(1), i - 1, id);
    }
}

} // verus!
