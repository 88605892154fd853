//! The print spooler: each process's print output is held in a spool of its
//! own until the process ends, and then goes to paper all at once.
use vstd::prelude::*;

verus! {

/// The output a process has printed so far.
pub struct Spool {
    pub pid: u16,
    pub lines: Vec<i32>,
}

/// All open spools, oldest first; no process has two.
pub struct Spooler {
    pub spools: Vec<Spool>,
}

/// The spools as (process id, values printed) pairs.
pub open spec fn spools_view(s: Seq<Spool>) -> Seq<(u16, Seq<i32>)> {
    s.map_values(|sp: Spool| (sp.pid, sp.lines@))
}

/// No process has two spools.
pub open spec fn spools_distinct(v: Seq<(u16, Seq<i32>)>) -> bool {
    forall|i: int, j: int| 0 <= i < j < v.len() ==> (#[trigger] v[i]).0 != (#[trigger] v[j]).0
}

/// The position of the spool of process `pid`, if it has one.
pub open spec fn spool_pos(v: Seq<(u16, Seq<i32>)>, pid: u16) -> Option<int> {
    if exists|i: int| 0 <= i < v.len() && (#[trigger] v[i]).0 == pid {
        Some(choose|i: int| 0 <= i < v.len() && (#[trigger] v[i]).0 == pid)
    } else {
        None
    }
}

/// The values process `pid` has printed since its spool was opened, if it has one.
pub open spec fn spool_of(v: Seq<(u16, Seq<i32>)>, pid: u16) -> Option<Seq<i32>> {
    match spool_pos(v, pid) {
        Some(i) => Some(v[i].1),
        None => None,
    }
}

/// Opening a spool for `pid`: a fresh empty spool at the end, or the existing
/// one emptied in place.
pub open spec fn spec_init_spool(v: Seq<(u16, Seq<i32>)>, pid: u16) -> Seq<(u16, Seq<i32>)> {
    match spool_pos(v, pid) {
        Some(i) => v.update(i, (pid, Seq::empty())),
        None => v.push((pid, Seq::empty())),
    }
}

/// Printing `value` for `pid`: appended to its spool, if it has one.
pub open spec fn spec_print(v: Seq<(u16, Seq<i32>)>, pid: u16, value: i32) -> Seq<(u16, Seq<i32>)> {
    match spool_pos(v, pid) {
        Some(i) => v.update(i, (pid, v[i].1.push(value))),
        None => v,
    }
}

/// Closing the spool of `pid`.
pub open spec fn spec_end_spool(v: Seq<(u16, Seq<i32>)>, pid: u16) -> Seq<(u16, Seq<i32>)> {
    match spool_pos(v, pid) {
        Some(i) => v.remove(i),
        None => v,
    }
}

/// Printing each of `values` in turn for `pid`.
pub open spec fn spec_print_all(v: Seq<(u16, Seq<i32>)>, pid: u16, values: Seq<i32>) -> Seq<(u16, Seq<i32>)>
    decreases values.len(),
{
    if values.len() == 0 {
        v
    } else {
        spec_print(spec_print_all(v, pid, values.drop_last()), pid, values.last())
    }
}

impl View for Spooler {
    type V = Seq<(u16, Seq<i32>)>;

    open spec fn view(&self) -> Seq<(u16, Seq<i32>)> {
        spools_view(self.spools@)
    }
}

proof fn lemma_pos_unique(v: Seq<(u16, Seq<i32>)>, pid: u16, i: int)
    requires
        spools_distinct(v),
        0 <= i < v.len(),
        v[i].0 == pid,
    ensures
        spool_pos(v, pid) == Some(i),
{
}

impl Spooler {
    pub open spec fn wf(&self) -> bool {
        spools_distinct(self@)
    }

    /// No spool open.
    pub fn new() -> (s: Spooler)
        ensures
            s.wf(),
            s@ == Seq::<(u16, Seq<i32>)>::empty(),
    {
        let s = Spooler { spools: Vec::new() };
        assert(s@ =~= Seq::<(u16, Seq<i32>)>::empty());
        s
    }

    fn find(&self, pid: u16) -> (r: Option<usize>)
        requires
            self.wf(),
        ensures
            match r {
                Some(i) => spool_pos(self@, pid) == Some(i as int),
                None => spool_pos(self@, pid) is None,
            },
    {
        let mut i: usize = 0;
        while i < self.spools.len()
            invariant
                i <= self.spools@.len(),
                self.wf(),
                forall|j: int| 0 <= j < i ==> (#[trigger] self@[j]).0 != pid,
            decreases self.spools@.len() - i,
        {
            if self.spools[i].pid == pid {
                proof {
                    lemma_pos_unique(self@, pid, i as int);
                }
                return Some(i);
            }
            i = i + 1;
        }
        None
    }

    /// Opens a spool for process `pid`, emptying the one it has.
    pub fn print_init_spool(&mut self, pid: u16)
        requires
            old(self).wf(),
        ensures
            final(self).wf(),
            final(self)@ == spec_init_spool(old(self)@, pid),
    {
        match self.find(pid) {
            Some(i) => {
                self.spools.set(i, Spool { pid, lines: Vec::new() });
                assert(self@ =~= spec_init_spool(old(self)@, pid));
            },
            None => {
                self.spools.push(Spool { pid, lines: Vec::new() });
                assert(self@ =~= spec_init_spool(old(self)@, pid));
            },
        }
    }

    /// Adds `value` to the spool of process `pid`. Returns whether it has one;
    /// when it has none, nothing changes.
    pub fn print_print(&mut self, pid: u16, value: i32) -> (spooled: bool)
        requires
            old(self).wf(),
        ensures
            final(self).wf(),
            final(self)@ == spec_print(old(self)@, pid, value),
            spooled == spool_pos(old(self)@, pid) is Some,
    {
        match self.find(pid) {
            Some(i) => {
                let mut sp = self.spools.remove(i);
                sp.lines.push(value);
                self.spools.insert(i, sp);
                assert(self@ =~= spec_print(old(self)@, pid, value));
                true
            },
            None => false,
        }
    }

    /// Closes the spool of process `pid` and hands back what it holds.
    pub fn print_end_spool(&mut self, pid: u16) -> (out: Option<Vec<i32>>)
        requires
            old(self).wf(),
        ensures
            final(self).wf(),
            final(self)@ == spec_end_spool(old(self)@, pid),
            match out {
                Some(v) => spool_of(old(self)@, pid) == Some(v@),
                None => spool_of(old(self)@, pid) is None,
            },
    {
        match self.find(pid) {
            Some(i) => {
                let sp = self.spools.remove(i);
                assert(self@ =~= spec_end_spool(old(self)@, pid));
                Some(sp.lines)
            },
            None => None,
        }
    }

    /// The open spools, oldest first.
    pub fn print_spool_dump(&self) -> (r: &Vec<Spool>)
        ensures
            spools_view(r@) == self@,
    {
        &self.spools
    }

    /// Closes every spool and hands them all back, oldest first.
    pub fn print_terminate(&mut self) -> (all: Vec<Spool>)
        requires
            old(self).wf(),
        ensures
            final(self).wf(),
            final(self)@ == Seq::<(u16, Seq<i32>)>::empty(),
            spools_view(all@) == old(self)@,
    {
        let mut all: Vec<Spool> = Vec::new();
        std::mem::swap(&mut all, &mut self.spools);
        assert(self@ =~= Seq::<(u16, Seq<i32>)>::empty());
        all
    }
}


proof fn lemma_init_spool(v: Seq<(u16, Seq<i32>)>, pid: u16)
    requires
        spools_distinct(v),
    ensures
        spools_distinct(spec_init_spool(v, pid)),
        spool_of(spec_init_spool(v, pid), pid) == Some(Seq::<i32>::empty()),
{
    let w = spec_init_spool(v, pid);
    match spool_pos(v, pid) {
        Some(i) => {
            assert(spools_distinct(w));
            lemma_pos_unique(w, pid, i);
        },
        None => {
            assert(spools_distinct(w));
            lemma_pos_unique(w, pid, v.len() as int);
        },
    }
}

pub proof fn lemma_print_spooled(v: Seq<(u16, Seq<i32>)>, pid: u16, x: i32)
    requires
        spools_distinct(v),
        spool_pos(v, pid) is Some,
    ensures
        spools_distinct(spec_print(v, pid, x)),
        spool_pos(spec_print(v, pid, x), pid) == spool_pos(v, pid),
        spool_of(spec_print(v, pid, x), pid) == Some(spool_of(v, pid)->0.push(x)),
{
    let i = spool_pos(v, pid)->0;
    let w = spec_print(v, pid, x);
    assert(spools_distinct(w));
    lemma_pos_unique(w, pid, i);
}

/// A process's spool gives back exactly what it printed since the spool was
/// opened, in order: open a spool for `pid`, print `values` for it one by
/// one, and the spool holds `values`.
pub proof fn lemma_spool_keeps_prints(v: Seq<(u16, Seq<i32>)>, pid: u16, values: Seq<i32>)
    requires
        spools_distinct(v),
    ensures
        spools_distinct(spec_print_all(spec_init_spool(v, pid), pid, values)),
        spool_of(spec_print_all(spec_init_spool(v, pid), pid, values), pid) == Some(values),
    decreases values.len(),
{
    lemma_init_spool(v, pid);
    if values.len() > 0 {
        lemma_spool_keeps_prints(v, pid, values.drop_last());
        let w = spec_print_all(spec_init_spool(v, pid), pid, values.drop_last());
        lemma_print_spooled(w, pid, values.last());
        assert(values.drop_last().push(values.last()) =~= values);
    } else {
        assert(values =~= Seq::<i32>::empty());
    }
}

/// Printing for a process never gives one process two spools.
pub proof fn lemma_print_distinct(v: Seq<(u16, Seq<i32>)>, pid: u16, x: i32)
    requires
        spools_distinct(v),
    ensures
        spools_distinct(spec_print(v, pid, x)),
        (spool_pos(spec_print(v, pid, x), pid) is Some) == (spool_pos(v, pid) is Some),
{
    if spool_pos(v, pid) is Some {
        lemma_print_spooled(v, pid, x);
    }
}

/// Closing a spool never gives one process two spools.
pub proof fn lemma_end_distinct(v: Seq<(u16, Seq<i32>)>, pid: u16)
    requires
        spools_distinct(v),
    ensures
        spools_distinct(spec_end_spool(v, pid)),
{
    match spool_pos(v, pid) {
        Some(i) => {
            let w = v.remove(i);
            assert forall|a: int, b: int| 0 <= a < b < w.len() implies (#[trigger] w[a]).0 != (#[trigger] w[b]).0 by {
                let x = if a < i { a } else { a + 1 };
                let y = if b < i { b } else { b + 1 };
                assert(w[a] == v[x]);
                assert(w[b] == v[y]);
            }
        },
        None => {},
    }
}

proof fn lemma_spool_of_at(v: Seq<(u16, Seq<i32>)>, q: u16, j: int)
    requires
        spools_distinct(v),
        0 <= j < v.len(),
        v[j].0 == q,
    ensures
        spool_of(v, q) == Some(v[j].1),
{
    lemma_pos_unique(v, q, j);
}

/// Spools of different processes do not touch: opening, printing to or
/// closing the spool of `pid` leaves the spool of every other process, open
/// or not, exactly as it was. Opening gives `pid` an empty spool, printing
/// adds to its spool only, and closing leaves it with none.
pub proof fn lemma_spools_independent(v: Seq<(u16, Seq<i32>)>, pid: u16, q: u16, x: i32)
    requires
        spools_distinct(v),
    ensures
        spool_of(spec_init_spool(v, pid), pid) == Some(Seq::<i32>::empty()),
        spool_of(spec_end_spool(v, pid), pid) is None,
        q != pid ==> spool_of(spec_init_spool(v, pid), q) == spool_of(v, q),
        q != pid ==> spool_of(spec_print(v, pid, x), q) == spool_of(v, q),
        q != pid ==> spool_of(spec_end_spool(v, pid), q) == spool_of(v, q),
{
    lemma_init_spool(v, pid);
    lemma_print_distinct(v, pid, x);
    lemma_end_distinct(v, pid);
    let wi = spec_init_spool(v, pid);
    let wp = spec_print(v, pid, x);
    let we = spec_end_spool(v, pid);
    if spool_of(we, pid) is Some {
        let k = choose|k: int| 0 <= k < we.len() && (#[trigger] we[k]).0 == pid;
        let i = spool_pos(v, pid)->0;
        let a = if k < i { k } else { k + 1 };
        assert(we[k] == v[a]);
        assert(v[i].0 == pid);
    }
    if q != pid {
        match spool_pos(v, q) {
            Some(j) => {
                lemma_spool_of_at(v, q, j);
                match spool_pos(v, pid) {
                    Some(i) => {
                        assert(j != i);
                        lemma_spool_of_at(wi, q, j);
                        lemma_spool_of_at(wp, q, j);
                        if j < i {
                            lemma_spool_of_at(we, q, j);
                        } else {
                            assert(we[j - 1] == v[j]);
                            lemma_spool_of_at(we, q, j - 1);
                        }
                    },
                    None => {
                        lemma_spool_of_at(wi, q, j);
                    },
                }
            },
            None => {
                if spool_pos(wi, q) is Some {
                    let k = choose|k: int| 0 <= k < wi.len() && (#[trigger] wi[k]).0 == q;
                    if k < v.len() {
                        assert(v[k].0 == q);
                    }
                }
                if spool_pos(wp, q) is Some {
                    let k = choose|k: int| 0 <= k < wp.len() && (#[trigger] wp[k]).0 == q;
                    assert(v[k].0 == q);
                }
                if spool_pos(we, q) is Some {
                    let k = choose|k: int| 0 <= k < we.len() && (#[trigger] we[k]).0 == q;
                    match spool_pos(v, pid) {
                        Some(i) => {
                            let a = if k < i { k } else { k + 1 };
                            assert(we[k] == v[a]);
                        },
                        None => {
                            assert(v[k].0 == q);
                        },
                    }
                }
            },
        }
    }
}
} // verus!
