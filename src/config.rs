use vstd::prelude::*;
use crate::text::str_equal;

verus! {

/// Where a printer is reached.
#[derive(Debug, Clone, PartialEq, Eq)]
pub enum Backend {
    Tcp9100 { host: String, port: u16 },
    Usb { device: String, baud_rate: Option<u32> },
}

/// A configured printer.
#[derive(Debug, Clone, PartialEq, Eq)]
pub struct Printer {
    pub name: String,
    pub id: String,
    pub backend: Backend,
}

/// The printers of a configuration file, in file order.
#[derive(Debug, Clone, PartialEq, Eq)]
pub struct Config {
    pub printers: Vec<Printer>,
}

/// The printers by id: at most one printer per id.
#[derive(Debug)]
pub struct PrinterMap {
    entries: Vec<Printer>,
}

/// The shared state of the request handlers: the current printer map.
#[derive(Debug)]
pub struct AppState {
    pub printers: PrinterMap,
}

/// The map that a list of printers gives when each is inserted under its id
/// in order: a later printer replaces an earlier one with the same id.
pub open spec fn map_of(printers: Seq<Printer>) -> Map<Seq<char>, Printer>
    decreases printers.len(),
{
    if printers.len() == 0 {
        Map::empty()
    } else {
        map_of(printers.drop_last()).insert(printers.last().id@, printers.last())
    }
}

pub open spec fn ids_unique(s: Seq<Printer>) -> bool {
    forall|i: int, j: int| 0 <= i < s.len() && 0 <= j < s.len() && i != j ==> (#[trigger] s[i]).id@ != (#[trigger] s[j]).id@
}

impl PrinterMap {
    pub closed spec fn view(&self) -> Map<Seq<char>, Printer> {
        Map::new(
            |k: Seq<char>| exists|i: int| 0 <= i < self.entries@.len() && (#[trigger] self.entries@[i]).id@ == k,
            |k: Seq<char>| self.entries@[choose|i: int| 0 <= i < self.entries@.len() && (#[trigger] self.entries@[i]).id@ == k],
        )
    }

    pub closed spec fn wf(&self) -> bool {
        ids_unique(self.entries@)
    }

    fn position(&self, id: &str) -> (r: Option<usize>)
        ensures
            r matches Some(i) ==> i < self.entries@.len() && self.entries@[i as int].id@ == id@,
            r is None ==> forall|i: int| 0 <= i < self.entries@.len() ==> (#[trigger] self.entries@[i]).id@ != id@,
    {
        let mut i: usize = 0;
        while i < self.entries.len()
            invariant
                i <= self.entries@.len(),
                forall|j: int| 0 <= j < i ==> (#[trigger] self.entries@[j]).id@ != id@,
            decreases self.entries.len() - i,
        {
            if str_equal(self.entries[i].id.as_str(), id) {
                return Some(i);
            }
            i += 1;
        }
        None
    }

    /// The printer with the given id.
    pub fn get(&self, id: &str) -> (r: Option<&Printer>)
        requires
            self.wf(),
        ensures
            r matches Some(p) ==> self@.contains_key(id@) && self@[id@] == *p,
            r is None ==> !self@.contains_key(id@),
    {
        match self.position(id) {
            Some(i) => {
                proof {
                    let c = choose|j: int| 0 <= j < self.entries@.len() && (#[trigger] self.entries@[j]).id@ == id@;
                    assert(self.entries@[c].id@ == id@);
                    assert(c == i);
                }
                Some(&self.entries[i])
            },
            None => None,
        }
    }

    /// The number of printers.
    pub fn len(&self) -> (r: usize)
        requires
            self.wf(),
        ensures
            r == self@.len(),
    {
        proof {
            self.lemma_len();
        }
        self.entries.len()
    }

    proof fn lemma_len(&self)
        requires
            self.wf(),
        ensures
            self@.len() == self.entries@.len(),
    {
        let ids = Seq::new(self.entries@.len(), |i: int| self.entries@[i].id@);
        assert forall|k: Seq<char>| #[trigger] self@.dom().contains(k) <==> ids.to_set().contains(k) by {
            if self@.dom().contains(k) {
                let c = choose|i: int| 0 <= i < self.entries@.len() && (#[trigger] self.entries@[i]).id@ == k;
                assert(ids[c] == k);
            }
            if ids.to_set().contains(k) {
                let c = choose|i: int| 0 <= i < ids.len() && ids[i] == k;
                assert(self.entries@[c].id@ == k);
            }
        }
        assert(self@.dom() =~= ids.to_set());
        assert forall|i: int, j: int| 0 <= i < ids.len() && 0 <= j < ids.len() && i != j implies ids[i] != ids[j] by {
            assert(self.entries@[i].id@ != self.entries@[j].id@);
        }
        ids.unique_seq_to_set();
    }

    /// The printers, each once.
    pub fn printers(&self) -> (r: &Vec<Printer>)
        requires
            self.wf(),
        ensures
            forall|i: int| 0 <= i < r@.len() ==> self@.contains_key((#[trigger] r@[i]).id@) && self@[r@[i].id@] == r@[i],
            r@.len() == self@.len(),
    {
        proof {
            self.lemma_len();
            assert forall|i: int| 0 <= i < self.entries@.len() implies self@.contains_key((#[trigger] self.entries@[i]).id@)
                && self@[self.entries@[i].id@] == self.entries@[i] by {
                let k = self.entries@[i].id@;
                let c = choose|j: int| 0 <= j < self.entries@.len() && (#[trigger] self.entries@[j]).id@ == k;
                assert(self.entries@[c].id@ == k);
            }
        }
        &self.entries
    }
}

/// Builds the map from printer id to printer: a later printer replaces an
/// earlier one with the same id.
pub fn build_printers_map(config: Config) -> (r: PrinterMap)
    ensures
        r.wf(),
        r@ == map_of(config.printers@),
{
    let mut rest = config.printers;
    let ghost all = rest@;
    assert(all.len() == rest.len());
    let mut map = PrinterMap { entries: Vec::new() };
    let mut n: usize = 0;
    assert(map@ =~= map_of(all.subrange(0, 0)));
    while rest.len() > 0
        invariant
            n + rest@.len() == all.len(),
            all.len() <= usize::MAX,
            rest@ == all.subrange(n as int, all.len() as int),
            map.wf(),
            map@ == map_of(all.subrange(0, n as int)),
        decreases rest.len(),
    {
        let p = rest.remove(0);
        assert(p == all[n as int]);
        let ghost before = map@;
        match map.position(p.id.as_str()) {
            Some(i) => {
                let ghost old_entries = map.entries@;
                map.entries.set(i, p);
                assert(map@ =~= before.insert(p.id@, p)) by {
                    assert forall|k: Seq<char>| #[trigger] map@.contains_key(k) <==> before.insert(p.id@, p).contains_key(k) by {
                        if k != p.id@ {
                            if map@.contains_key(k) {
                                let c = choose|j: int| 0 <= j < map.entries@.len() && (#[trigger] map.entries@[j]).id@ == k;
                                assert(old_entries[c].id@ == k);
                            }
                            if before.contains_key(k) {
                                let c = choose|j: int| 0 <= j < old_entries.len() && (#[trigger] old_entries[j]).id@ == k;
                                assert(map.entries@[c].id@ == k);
                            }
                        } else {
                            assert(map.entries@[i as int].id@ == k);
                        }
                    }
                    assert forall|k: Seq<char>| #[trigger] map@.contains_key(k) implies map@[k] == before.insert(p.id@, p)[k] by {
                        let c = choose|j: int| 0 <= j < map.entries@.len() && (#[trigger] map.entries@[j]).id@ == k;
                        if k != p.id@ {
                            assert(old_entries[c].id@ == k);
                            let c2 = choose|j: int| 0 <= j < old_entries.len() && (#[trigger] old_entries[j]).id@ == k;
                            assert(old_entries[c2].id@ == k);
                            assert(c == c2);
                        } else {
                            assert(map.entries@[i as int].id@ == k);
                            assert(c == i);
                        }
                    }
                }
            },
            None => {
                let ghost old_entries = map.entries@;
                map.entries.push(p);
                assert(map@ =~= before.insert(p.id@, p)) by {
                    assert forall|k: Seq<char>| #[trigger] map@.contains_key(k) <==> before.insert(p.id@, p).contains_key(k) by {
                        if map@.contains_key(k) && k != p.id@ {
                            let c = choose|j: int| 0 <= j < map.entries@.len() && (#[trigger] map.entries@[j]).id@ == k;
                            assert(old_entries[c].id@ == k);
                        }
                        if before.contains_key(k) {
                            let c = choose|j: int| 0 <= j < old_entries.len() && (#[trigger] old_entries[j]).id@ == k;
                            assert(map.entries@[c].id@ == k);
                        }
                        if k == p.id@ {
                            assert(map.entries@[old_entries.len() as int].id@ == k);
                        }
                    }
                    assert forall|k: Seq<char>| #[trigger] map@.contains_key(k) implies map@[k] == before.insert(p.id@, p)[k] by {
                        let c = choose|j: int| 0 <= j < map.entries@.len() && (#[trigger] map.entries@[j]).id@ == k;
                        if k != p.id@ {
                            assert(old_entries[c].id@ == k);
                            let c2 = choose|j: int| 0 <= j < old_entries.len() && (#[trigger] old_entries[j]).id@ == k;
                            assert(old_entries[c2].id@ == k);
                            assert(c == c2);
                        } else {
                            assert(map.entries@[old_entries.len() as int].id@ == k);
                            assert(c == old_entries.len());
                        }
                    }
                }
            },
        }
        n += 1;
        assert(all.subrange(0, n as int).drop_last() =~= all.subrange(0, n as int - 1));
        assert(rest@ =~= all.subrange(n as int, all.len() as int));
    }
    assert(all.subrange(0, n as int) =~= all);
    map
}

} // verus!
