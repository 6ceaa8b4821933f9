//! The capture environment: an association from logical variable name to
//! a captured tree fragment (single capture) or an ordered list of
//! fragments (multi capture), populated by the matcher and consumed
//! read-only by the replacement engine.

use crate::meta_var::MetaVariable;
use crate::tree::Node;
use vstd::prelude::*;

verus! {

/// Mathematical view of one capture: the text of a single fragment, or
/// the texts of an ordered list of fragments.
pub ghost enum CaptureV {
    Single(Seq<char>),
    Multi(Seq<Seq<char>>),
}

/// The concatenation, in order, of fragment texts with no separator.
pub open spec fn concat_texts(ts: Seq<Seq<char>>) -> Seq<char>
    decreases ts.len(),
{
    if ts.len() == 0 {
        Seq::empty()
    } else {
        concat_texts(ts.drop_last()) + ts.last()
    }
}

impl CaptureV {
    /// The text this capture stands for when substituted.
    pub open spec fn inserted_text(self) -> Seq<char> {
        match self {
            CaptureV::Single(t) => t,
            CaptureV::Multi(ts) => concat_texts(ts),
        }
    }
}

/// One binding handed over by the matcher: exactly one fragment, or an
/// ordered list of fragments matched by an ellipsis placeholder.
pub enum MatchResult<'t> {
    Single(Node<'t>),
    Multi(Vec<Node<'t>>),
}

impl<'t> MatchResult<'t> {
    pub open spec fn wf(self) -> bool {
        match self {
            MatchResult::Single(n) => n.wf(),
            MatchResult::Multi(ns) => forall|i: int|
                0 <= i < ns@.len() ==> (#[trigger] ns@[i]).wf(),
        }
    }

    pub open spec fn view_cap(self) -> CaptureV {
        match self {
            MatchResult::Single(n) => CaptureV::Single(n.text_spec()),
            MatchResult::Multi(ns) => CaptureV::Multi(
                ns@.map(|i: int, n: Node<'t>| n.text_spec()),
            ),
        }
    }
}

/// The mapping an entry list stands for; an earlier entry shadows a
/// later one of the same name.
pub open spec fn kv_map(s: Seq<(Seq<char>, CaptureV)>) -> Map<Seq<char>, CaptureV>
    decreases s.len(),
{
    if s.len() == 0 {
        Map::empty()
    } else {
        kv_map(s.skip(1)).insert(s[0].0, s[0].1)
    }
}

/// A linear scan that has ruled the first `i` entries out sees exactly
/// what the map holds for that key.
pub proof fn lemma_kv_scan(s: Seq<(Seq<char>, CaptureV)>, k: Seq<char>, i: int)
    requires
        0 <= i <= s.len(),
        forall|j: int| 0 <= j < i ==> (#[trigger] s[j]).0 != k,
    ensures
        kv_map(s).contains_key(k) <==> (exists|j: int|
            i <= j < s.len() && (#[trigger] s[j]).0 == k),
        i < s.len() && s[i].0 == k ==> kv_map(s).contains_key(k) && kv_map(s)[k] == s[i].1,
    decreases s.len(),
{
    if s.len() == 0 {
        assert(!kv_map(s).contains_key(k));
    } else if i == 0 && s[0].0 == k {
        assert(kv_map(s).contains_key(k) && kv_map(s)[k] == s[0].1);
    } else {
        let tail = s.skip(1);
        let i2: int = if i == 0 {
            0
        } else {
            i - 1
        };
        assert(s[0].0 != k);
        assert forall|j: int| 0 <= j < i2 implies (#[trigger] tail[j]).0 != k by {
            assert(tail[j] == s[j + 1]);
        }
        lemma_kv_scan(tail, k, i2);
        if kv_map(s).contains_key(k) {
            assert(kv_map(tail).contains_key(k));
            let j2 = choose|j2: int| i2 <= j2 < tail.len() && (#[trigger] tail[j2]).0 == k;
            assert(tail[j2] == s[j2 + 1]);
            assert(i <= j2 + 1 < s.len() && s[j2 + 1].0 == k);
        }
        if exists|j: int| i <= j < s.len() && (#[trigger] s[j]).0 == k {
            let j = choose|j: int| i <= j < s.len() && (#[trigger] s[j]).0 == k;
            assert(j >= 1);
            assert(tail[j - 1] == s[j]);
            assert(kv_map(tail).contains_key(k));
            assert(kv_map(s).contains_key(k));
        }
        if i < s.len() && s[i].0 == k {
            assert(i >= 1);
            assert(tail[i - 1] == s[i]);
            assert(kv_map(tail)[k] == tail[i2].1);
            assert(kv_map(s)[k] == kv_map(tail)[k]);
        }
    }
}

/// The capture environment for one match: immutable once populated,
/// consumed read-only by the replacement engine.
pub struct MetaVarEnv<'t> {
    pub entries: Vec<(String, MatchResult<'t>)>,
}

impl<'t> MetaVarEnv<'t> {
    pub open spec fn wf(self) -> bool {
        forall|i: int| 0 <= i < self.entries@.len() ==> (#[trigger] self.entries@[i]).1.wf()
    }

    pub open spec fn entries_view(self) -> Seq<(Seq<char>, CaptureV)> {
        self.entries@.map(|i: int, p: (String, MatchResult<'t>)| (p.0@, p.1.view_cap()))
    }

    /// The mapping from logical name to capture this environment holds.
    pub open spec fn view_env(self) -> Map<Seq<char>, CaptureV> {
        kv_map(self.entries_view())
    }

    /// An empty environment, created per match attempt.
    pub fn new() -> (r: Self)
        ensures
            r.wf(),
            r.view_env() == Map::<Seq<char>, CaptureV>::empty(),
    {
        let r = MetaVarEnv { entries: Vec::new() };
        proof {
            assert(r.entries_view() =~= Seq::<(Seq<char>, CaptureV)>::empty());
        }
        r
    }

    /// Bind `id` to a single captured fragment.
    pub fn insert(&mut self, id: String, node: Node<'t>)
        requires
            old(self).wf(),
            node.wf(),
        ensures
            final(self).wf(),
            final(self).view_env() == old(self).view_env().insert(
                id@,
                CaptureV::Single(node.text_spec()),
            ),
    {
        let ghost prev = self.entries_view();
        let ghost cap = CaptureV::Single(node.text_spec());
        let ghost key = id@;
        self.entries.insert(0, (id, MatchResult::Single(node)));
        proof {
            assert(self.entries_view() =~= seq![(key, cap)] + prev);
            assert(self.entries_view().skip(1) =~= prev);
        }
    }

    /// Bind `id` to an ordered list of captured fragments.
    pub fn insert_multi(&mut self, id: String, nodes: Vec<Node<'t>>)
        requires
            old(self).wf(),
            forall|i: int| 0 <= i < nodes@.len() ==> (#[trigger] nodes@[i]).wf(),
        ensures
            final(self).wf(),
            final(self).view_env() == old(self).view_env().insert(
                id@,
                CaptureV::Multi(nodes@.map(|i: int, n: Node<'t>| n.text_spec())),
            ),
    {
        let ghost prev = self.entries_view();
        let ghost cap = CaptureV::Multi(nodes@.map(|i: int, n: Node<'t>| n.text_spec()));
        let ghost key = id@;
        self.entries.insert(0, (id, MatchResult::Multi(nodes)));
        proof {
            assert(self.entries_view() =~= seq![(key, cap)] + prev);
            assert(self.entries_view().skip(1) =~= prev);
        }
    }

    /// Look the placeholder's logical name up.
    pub fn get(&self, var: &MetaVariable) -> (r: Option<&MatchResult<'t>>)
        requires
            self.wf(),
        ensures
            match r {
                Some(m) => m.wf() && self.view_env().contains_key(var.view_mv().name())
                    && m.view_cap() == self.view_env()[var.view_mv().name()],
                None => !self.view_env().contains_key(var.view_mv().name()),
            },
    {
        let name = var.name();
        let n = self.entries.len();
        let mut i: usize = 0;
        while i < n
            invariant
                i <= n == self.entries@.len(),
                self.wf(),
                name@ == var.view_mv().name(),
                forall|j: int| 0 <= j < i ==> (#[trigger] self.entries_view()[j]).0 != name@,
            decreases n - i,
        {
            if self.entries[i].0.eq(name) {
                proof {
                    assert(self.entries_view()[i as int] == (
                        self.entries@[i as int].0@,
                        self.entries@[i as int].1.view_cap(),
                    ));
                    lemma_kv_scan(self.entries_view(), name@, i as int);
                }
                return Some(&self.entries[i].1);
            }
            proof {
                assert(self.entries_view()[i as int] == (
                    self.entries@[i as int].0@,
                    self.entries@[i as int].1.view_cap(),
                ));
            }
            i += 1;
        }
        proof {
            lemma_kv_scan(self.entries_view(), name@, n as int);
        }
        None
    }
}

} // verus!
