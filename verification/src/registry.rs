use vstd::prelude::*;
use crate::text::str_eq;

verus! {

/// The peer bookkeeping table: an address together with an activity
/// flag. No protocol behaviour attaches to it; registration only
/// records that an address is known.
pub struct NodeRegistry {
    pub entries: Vec<(String, bool)>,
}

/// The first row holding `addr`, or a negative value when no row does.
pub open spec fn spec_find(entries: Seq<(String, bool)>, addr: Seq<char>) -> int
    decreases entries.len(),
{
    if entries.len() == 0 {
        -1
    } else if entries[0].0@ == addr {
        0
    } else if spec_find(entries.drop_first(), addr) < 0 {
        -1
    } else {
        spec_find(entries.drop_first(), addr) + 1
    }
}

proof fn lemma_spec_find(entries: Seq<(String, bool)>, addr: Seq<char>)
    ensures
        spec_find(entries, addr) < 0 ==> forall|j: int|
            0 <= j < entries.len() ==> (#[trigger] entries[j]).0@ != addr,
        spec_find(entries, addr) >= 0 ==> 0 <= spec_find(entries, addr) < entries.len()
            && entries[spec_find(entries, addr)].0@ == addr && (forall|j: int|
            0 <= j < spec_find(entries, addr) ==> (#[trigger] entries[j]).0@ != addr),
    decreases entries.len(),
{
    if entries.len() > 0 && entries[0].0@ != addr {
        let rest = entries.drop_first();
        lemma_spec_find(rest, addr);
        let f = spec_find(entries, addr);
        if f < 0 {
            assert forall|j: int| 0 <= j < entries.len() implies (#[trigger] entries[j]).0@
                != addr by {
                if j >= 1 {
                    assert(rest[j - 1] == entries[j]);
                    assert(rest[j - 1].0@ != addr);
                }
            }
        } else {
            assert(f == spec_find(rest, addr) + 1);
            assert(entries[f] == rest[f - 1]);
            assert forall|j: int| 0 <= j < f implies (#[trigger] entries[j]).0@ != addr by {
                if j >= 1 {
                    assert(rest[j - 1] == entries[j]);
                    assert(rest[j - 1].0@ != addr);
                }
            }
        }
    }
}

impl NodeRegistry {
    /// The set of registered addresses.
    pub open spec fn spec_addrs(self) -> Set<Seq<char>> {
        Set::new(
            |a: Seq<char>|
                exists|i: int| 0 <= i < self.entries@.len() && (#[trigger] self.entries@[i]).0@
                    == a,
        )
    }

    /// The number of table rows.
    pub open spec fn spec_len(self) -> nat {
        self.entries@.len()
    }

    /// An empty registry.
    pub fn new() -> (r: NodeRegistry)
        ensures
            r.spec_len() == 0,
            r.spec_addrs() == Set::<Seq<char>>::empty(),
    {
        let r = NodeRegistry { entries: Vec::new() };
        proof {
            assert(r.spec_addrs() =~= Set::<Seq<char>>::empty());
        }
        r
    }

    /// How many addresses are registered.
    pub fn len(&self) -> (r: usize)
        ensures
            r == self.spec_len(),
    {
        self.entries.len()
    }

    /// Whether an address is registered.
    pub fn contains_key(&self, address: &str) -> (r: bool)
        ensures
            r == self.spec_addrs().contains(address@),
    {
        let mut i: usize = 0;
        while i < self.entries.len()
            invariant
                0 <= i <= self.entries@.len(),
                forall|j: int| 0 <= j < i ==> (#[trigger] self.entries@[j]).0@ != address@,
            decreases self.entries@.len() - i,
        {
            if str_eq(self.entries[i].0.as_str(), address) {
                return true;
            }
            i = i + 1;
        }
        false
    }

    /// Registers an address as active: a new address is appended with
    /// an active flag; a known address has its flag forced to active.
    /// When the flag is already active nothing changes at all, so a
    /// repeated registration leaves the table untouched.
    pub fn register(&mut self, address: String)
        ensures
            final(self).spec_addrs() == old(self).spec_addrs().insert(address@),
            !old(self).spec_addrs().contains(address@) ==> final(self).entries@ == old(
                self,
            ).entries@.push((address, true)) && final(self).spec_len() == old(self).spec_len()
                + 1,
            old(self).spec_addrs().contains(address@) ==> ({
                let i = spec_find(old(self).entries@, address@);
                &&& final(self).spec_len() == old(self).spec_len()
                &&& 0 <= i < old(self).entries@.len()
                &&& final(self).entries@ == old(self).entries@.update(
                    i,
                    (old(self).entries@[i].0, true),
                )
            }),
            old(self).spec_addrs().contains(address@) && old(self).entries@[spec_find(
                old(self).entries@,
                address@,
            )].1 ==> *final(self) == *old(self),
    {
        let n = self.entries.len();
        let mut i: usize = 0;
        while i < n
            invariant
                0 <= i <= n == self.entries@.len(),
                *self == *old(self),
                forall|j: int| 0 <= j < i ==> (#[trigger] self.entries@[j]).0@ != address@,
            decreases n - i,
        {
            if str_eq(self.entries[i].0.as_str(), address.as_str()) {
                proof {
                    lemma_spec_find(old(self).entries@, address@);
                    let f = spec_find(old(self).entries@, address@);
                    if f < 0 {
                        assert(old(self).entries@[i as int].0@ != address@);
                    } else if f < i as int {
                        assert(old(self).entries@[f].0@ != address@);
                    } else if f > i as int {
                        assert(old(self).entries@[i as int].0@ != address@);
                    }
                    assert(f == i as int);
                    assert(old(self).spec_addrs().contains(address@));
                }
                if self.entries[i].1 {
                    proof {
                        assert(old(self).entries@.update(
                            i as int,
                            (old(self).entries@[i as int].0, true),
                        ) =~= old(self).entries@);
                        assert(self.spec_addrs() =~= old(self).spec_addrs().insert(address@));
                    }
                    return;
                }
                self.entries[i].1 = true;
                proof {
                    assert(self.entries@ =~= old(self).entries@.update(
                        i as int,
                        (old(self).entries@[i as int].0, true),
                    ));
                    assert forall|a: Seq<char>|
                        self.spec_addrs().contains(a) == old(self).spec_addrs().insert(
                            address@,
                        ).contains(a) by {
                        if self.spec_addrs().contains(a) {
                            let k = choose|k: int|
                                0 <= k < self.entries@.len() && (#[trigger] self.entries@[k]).0@
                                    == a;
                            assert((old(self).entries@[k]).0@ == a);
                        }
                        if old(self).spec_addrs().contains(a) {
                            let k = choose|k: int|
                                0 <= k < old(self).entries@.len() && (#[trigger] old(
                                    self,
                                ).entries@[k]).0@ == a;
                            assert((self.entries@[k]).0@ == a);
                        }
                        if a == address@ {
                            assert((self.entries@[i as int]).0@ == a);
                        }
                    }
                    assert(self.spec_addrs() =~= old(self).spec_addrs().insert(address@));
                }
                return;
            }
            i = i + 1;
        }
        proof {
            if old(self).spec_addrs().contains(address@) {
                let k = choose|k: int|
                    0 <= k < old(self).entries@.len() && (#[trigger] old(self).entries@[k]).0@
                        == address@;
                assert(old(self).entries@[k].0@ != address@);
            }
        }
        self.entries.push((address, true));
        proof {
            let n2 = old(self).entries@.len() as int;
            assert forall|a: Seq<char>|
                self.spec_addrs().contains(a) == old(self).spec_addrs().insert(address@).contains(
                    a,
                ) by {
                if self.spec_addrs().contains(a) {
                    let k = choose|k: int|
                        0 <= k < self.entries@.len() && (#[trigger] self.entries@[k]).0@ == a;
                    if k < n2 {
                        assert(old(self).entries@[k] == self.entries@[k]);
                    } else {
                        assert(a == address@);
                    }
                }
                if old(self).spec_addrs().contains(a) {
                    let k = choose|k: int|
                        0 <= k < old(self).entries@.len() && (#[trigger] old(
                            self,
                        ).entries@[k]).0@ == a;
                    assert(self.entries@[k] == old(self).entries@[k]);
                    assert((self.entries@[k]).0@ == a);
                }
                if a == address@ {
                    assert((self.entries@[n2]).0@ == a);
                }
            }
            assert(self.spec_addrs() =~= old(self).spec_addrs().insert(address@));
        }
    }

}

} // verus!
