//! The account store: a forest of named accounts rooted at five fixed
//! categories, with open-or-get creation, exact and fuzzy lookup, ancestor
//! traversal and contact provisioning.

use vstd::prelude::*;
use vstd::string::StringExecFns;
use vstd::string::StrSliceExecFns;

use crate::text::{contains_ci, contains_seq, str_contains, str_contains_ci, str_eq};

verus! {

/// An opaque account identity: an index into the tree that issued it.
#[derive(Clone, Copy, PartialEq, Eq, Structural, Debug)]
pub struct Accn {
    id: usize,
}

impl Accn {
    pub closed spec fn id_spec(self) -> int {
        self.id as int
    }
}

/// Distinct accounts carry distinct identities.
pub proof fn lemma_accn_ne(a: Accn, b: Accn)
    requires
        a != b,
    ensures
        a.id_spec() != b.id_spec(),
{
}

/// One node of the forest: a display name and the parent's index.
struct AccnNode {
    name: String,
    parent: Option<usize>,
}

/// The mathematical shadow of a node.
pub struct AccnNodeV {
    pub name: Seq<char>,
    pub parent: Option<int>,
}

impl AccnNode {
    spec fn view_node(self) -> AccnNodeV {
        AccnNodeV {
            name: self.name@,
            parent: match self.parent {
                Some(p) => Some(p as int),
                None => None,
            },
        }
    }
}

/// A contact's two provisioned accounts.
#[derive(Clone, Copy, PartialEq, Eq, Structural, Debug)]
pub struct Contact {
    pub payable: Accn,
    pub receivable: Accn,
}

/// Index of the synthetic root node.
pub const ROOT: usize = 0;

/// Indices of the five fixed top-level categories.
pub const ASSET: usize = 1;

pub const LIABILITY: usize = 2;

pub const EQUITY: usize = 3;

pub const INCOME: usize = 4;

pub const EXPENSE: usize = 5;

/// Shape of a well-formed forest: parents precede children, node 0 is the
/// synthetic root, nodes 1 to 5 are the five categories, and no two siblings
/// share a name.
pub open spec fn tree_wf(nodes: Seq<AccnNodeV>) -> bool {
    &&& nodes.len() >= 6
    &&& nodes[0].parent is None
    &&& nodes[0].name == "root"@
    &&& forall|i: int|
        1 <= i < nodes.len() ==> (#[trigger] nodes[i].parent) is Some && 0 <= nodes[i].parent->0
            < i
    &&& forall|i: int, j: int| #![auto]
        1 <= i < j < nodes.len() && nodes[i].parent == nodes[j].parent ==> nodes[i].name
            != nodes[j].name
    &&& nodes[1].parent == Some(0int) && nodes[1].name == "asset"@
    &&& nodes[2].parent == Some(0int) && nodes[2].name == "liability"@
    &&& nodes[3].parent == Some(0int) && nodes[3].name == "equity"@
    &&& nodes[4].parent == Some(0int) && nodes[4].name == "income"@
    &&& nodes[5].parent == Some(0int) && nodes[5].name == "expense"@
}

/// The first index at or after `k` holding a child of `p` named `name`.
pub open spec fn find_child_from(nodes: Seq<AccnNodeV>, p: int, name: Seq<char>, k: int) -> Option<
    int,
>
    decreases nodes.len() - k,
{
    if k < 0 || k >= nodes.len() {
        None
    } else if nodes[k].parent == Some(p) && nodes[k].name == name {
        Some(k)
    } else {
        find_child_from(nodes, p, name, k + 1)
    }
}

/// The existing child of `p` named `name`, if any.
pub open spec fn find_child(nodes: Seq<AccnNodeV>, p: int, name: Seq<char>) -> Option<int> {
    find_child_from(nodes, p, name, 0)
}

/// Open-or-get: the tree after asking for a child of `p` named `name`, and
/// the child's identity.
pub open spec fn open_spec(nodes: Seq<AccnNodeV>, p: int, name: Seq<char>) -> (Seq<AccnNodeV>, int) {
    match find_child(nodes, p, name) {
        Some(i) => (nodes, i),
        None => (nodes.push(AccnNodeV { name, parent: Some(p) }), nodes.len() as int),
    }
}

/// A found child really is the first matching one.
pub proof fn lemma_find_child_from_some(nodes: Seq<AccnNodeV>, p: int, name: Seq<char>, k: int)
    requires
        find_child_from(nodes, p, name, k) is Some,
    ensures
        ({
            let i = find_child_from(nodes, p, name, k)->Some_0;
            &&& k <= i < nodes.len()
            &&& nodes[i].parent == Some(p)
            &&& nodes[i].name == name
            &&& forall|j: int| #![auto]
                k <= j < i ==> !(nodes[j].parent == Some(p) && nodes[j].name == name)
        }),
    decreases nodes.len() - k,
{
    if !(k < 0 || k >= nodes.len()) {
        if !(nodes[k].parent == Some(p) && nodes[k].name == name) {
            lemma_find_child_from_some(nodes, p, name, k + 1);
        }
    }
}

/// A missing child really misses everywhere.
pub proof fn lemma_find_child_from_none(nodes: Seq<AccnNodeV>, p: int, name: Seq<char>, k: int)
    requires
        0 <= k,
        find_child_from(nodes, p, name, k) is None,
    ensures
        forall|j: int| #![auto]
            k <= j < nodes.len() ==> !(nodes[j].parent == Some(p) && nodes[j].name == name),
    decreases nodes.len() - k,
{
    if !(k < 0 || k >= nodes.len()) {
        lemma_find_child_from_none(nodes, p, name, k + 1);
    }
}

/// Appending a node moves a missing lookup to it when it matches.
proof fn lemma_find_child_push(nodes: Seq<AccnNodeV>, p: int, name: Seq<char>, e: AccnNodeV, k: int)
    requires
        0 <= k <= nodes.len(),
        find_child_from(nodes, p, name, k) is None,
    ensures
        find_child_from(nodes.push(e), p, name, k) == (if e.parent == Some(p) && e.name == name {
            Some(nodes.len() as int)
        } else {
            None::<int>
        }),
    decreases nodes.len() - k,
{
    let news = nodes.push(e);
    if k < nodes.len() {
        assert(news[k] == nodes[k]);
        lemma_find_child_push(nodes, p, name, e, k + 1);
        assert(!(news[k].parent == Some(p) && news[k].name == name));
    } else {
        assert(news[k] == e);
        if e.parent == Some(p) && e.name == name {
            assert(find_child_from(news, p, name, k) == Some(k));
        } else {
            assert(find_child_from(news, p, name, k) == find_child_from(news, p, name, k + 1));
            assert(find_child_from(news, p, name, k + 1) is None);
        }
    }
}

/// Asking twice for the same child returns the same identity, and the second
/// call changes nothing: open-or-get is idempotent.
pub proof fn lemma_open_idempotent(nodes: Seq<AccnNodeV>, p: int, name: Seq<char>)
    ensures
        open_spec(open_spec(nodes, p, name).0, p, name).0 == open_spec(nodes, p, name).0,
        open_spec(open_spec(nodes, p, name).0, p, name).1 == open_spec(nodes, p, name).1,
{
    match find_child(nodes, p, name) {
        Some(i) => {},
        None => {
            let e = AccnNodeV { name, parent: Some(p) };
            lemma_find_child_push(nodes, p, name, e, 0);
        },
    }
}

/// Opening a child keeps the tree well formed and yields a valid identity
/// that is never the root.
pub proof fn lemma_open_wf(nodes: Seq<AccnNodeV>, p: int, name: Seq<char>)
    requires
        tree_wf(nodes),
        0 <= p < nodes.len(),
    ensures
        tree_wf(open_spec(nodes, p, name).0),
        nodes.len() <= open_spec(nodes, p, name).0.len(),
        nodes.len() == open_spec(nodes, p, name).0.len() || open_spec(nodes, p, name).0.len()
            == nodes.len() + 1,
        open_spec(nodes, p, name).0.take(nodes.len() as int) == nodes,
        1 <= open_spec(nodes, p, name).1 < open_spec(nodes, p, name).0.len(),
        open_spec(nodes, p, name).0[open_spec(nodes, p, name).1].name == name,
        open_spec(nodes, p, name).0[open_spec(nodes, p, name).1].parent == Some(p),
{
    match find_child(nodes, p, name) {
        Some(i) => {
            lemma_find_child_from_some(nodes, p, name, 0);
            assert(open_spec(nodes, p, name).0.take(nodes.len() as int) =~= nodes);
        },
        None => {
            lemma_find_child_from_none(nodes, p, name, 0);
            let news = open_spec(nodes, p, name).0;
            assert(news.take(nodes.len() as int) =~= nodes);
            assert(tree_wf(news)) by {
                assert forall|i: int|
                    1 <= i < news.len() implies (#[trigger] news[i].parent) is Some && 0
                    <= news[i].parent->0 < i by {
                    if i < nodes.len() {
                        assert(news[i] == nodes[i]);
                    }
                }
                assert forall|i: int, j: int| #![auto]
                    1 <= i < j < news.len() && news[i].parent == news[j].parent implies news[i].name
                    != news[j].name by {
                    if j < nodes.len() {
                        assert(news[i] == nodes[i] && news[j] == nodes[j]);
                    } else {
                        assert(news[i] == nodes[i] && news[j] == news.last());
                    }
                }
            }
        },
    }
}

/// The account forest.
pub struct AccnTree {
    nodes: Vec<AccnNode>,
}

impl View for AccnTree {
    type V = Seq<AccnNodeV>;

    closed spec fn view(&self) -> Seq<AccnNodeV> {
        self.nodes@.map_values(|n: AccnNode| n.view_node())
    }
}

impl AccnTree {
    pub open spec fn wf(self) -> bool {
        tree_wf(self@)
    }

    pub open spec fn valid(self, a: Accn) -> bool {
        0 <= a.id_spec() < self@.len()
    }

    /// A fresh tree holding the root and the five categories.
    pub fn new() -> (t: AccnTree)
        ensures
            t.wf(),
            t@.len() == 6,
            t@[0].name == "root"@,
            t@[1].name == "asset"@,
            t@[2].name == "liability"@,
            t@[3].name == "equity"@,
            t@[4].name == "income"@,
            t@[5].name == "expense"@,
    {
        proof {
            reveal_strlit("root");
            reveal_strlit("asset");
            reveal_strlit("liability");
            reveal_strlit("equity");
            reveal_strlit("income");
            reveal_strlit("expense");
        }
        let mut nodes: Vec<AccnNode> = Vec::new();
        nodes.push(AccnNode { name: String::from_str("root"), parent: None });
        nodes.push(AccnNode { name: String::from_str("asset"), parent: Some(ROOT) });
        nodes.push(AccnNode { name: String::from_str("liability"), parent: Some(ROOT) });
        nodes.push(AccnNode { name: String::from_str("equity"), parent: Some(ROOT) });
        nodes.push(AccnNode { name: String::from_str("income"), parent: Some(ROOT) });
        nodes.push(AccnNode { name: String::from_str("expense"), parent: Some(ROOT) });
        let t = AccnTree { nodes };
        proof {
            assert(t@.len() == 6);
            assert(t@[1].name == "asset"@ && t@[1].parent == Some(0int));
            assert(t@[2].name == "liability"@ && t@[2].parent == Some(0int));
            assert(t@[3].name == "equity"@ && t@[3].parent == Some(0int));
            assert(t@[4].name == "income"@ && t@[4].parent == Some(0int));
            assert(t@[5].name == "expense"@ && t@[5].parent == Some(0int));
            assert(t@[0].parent is None);
            assert(t@[0].name == "root"@);
            reveal_strlit("asset");
            reveal_strlit("liability");
            reveal_strlit("equity");
            reveal_strlit("income");
            reveal_strlit("expense");
            assert("asset"@.len() == 5);
            assert("liability"@.len() == 9);
            assert("equity"@.len() == 6);
            assert("income"@.len() == 6);
            assert("expense"@.len() == 7);
            assert("income"@[0] == 'i' && "equity"@[0] == 'e');
            assert("asset"@ != "liability"@ && "asset"@ != "equity"@ && "asset"@ != "income"@
                && "asset"@ != "expense"@);
            assert("liability"@ != "equity"@ && "liability"@ != "income"@ && "liability"@
                != "expense"@);
            assert("equity"@ != "income"@ && "equity"@ != "expense"@);
            assert("income"@ != "expense"@);
            assert forall|i: int|
                1 <= i < t@.len() implies (#[trigger] t@[i].parent) is Some && 0
                <= t@[i].parent->0 < i by {}
            assert forall|i: int, j: int| #![auto]
                1 <= i < j < t@.len() && t@[i].parent == t@[j].parent implies t@[i].name
                != t@[j].name by {}
        }
        t
    }

    /// The number of accounts, the synthetic root included.
    pub fn count(&self) -> (n: usize)
        ensures
            n == self@.len(),
    {
        self.nodes.len()
    }

    /// An identity handle for a node index the contracts speak of.
    pub fn nth(&self, i: usize) -> (a: Accn)
        requires
            i < self@.len(),
        ensures
            a.id_spec() == i,
    {
        Accn { id: i }
    }

    pub fn root(&self) -> (a: Accn)
        ensures
            a.id_spec() == ROOT,
    {
        Accn { id: ROOT }
    }

    pub fn expense(&self) -> (a: Accn)
        requires
            self.wf(),
        ensures
            a.id_spec() == EXPENSE,
            self@[a.id_spec()].name == "expense"@,
    {
        Accn { id: EXPENSE }
    }

    pub fn income(&self) -> (a: Accn)
        requires
            self.wf(),
        ensures
            a.id_spec() == INCOME,
            self@[a.id_spec()].name == "income"@,
    {
        Accn { id: INCOME }
    }

    /// The account's own display name.
    pub fn name(&self, a: Accn) -> (r: &String)
        requires
            self.valid(a),
        ensures
            r@ == self@[a.id_spec()].name,
    {
        proof {
            assert(self@[a.id_spec()] == self.nodes@[a.id_spec()].view_node());
        }
        &self.nodes[a.id].name
    }

    pub fn parent(&self, a: Accn) -> (r: Option<Accn>)
        requires
            self.valid(a),
        ensures
            r is Some <==> self@[a.id_spec()].parent is Some,
            r is Some ==> r->Some_0.id_spec() == self@[a.id_spec()].parent->Some_0,
    {
        proof {
            assert(self@[a.id_spec()] == self.nodes@[a.id_spec()].view_node());
        }
        match self.nodes[a.id].parent {
            Some(p) => Some(Accn { id: p }),
            None => None,
        }
    }

    /// Open-or-get: returns the existing child of `p` with this name, or
    /// allocates one.  Never fails and never duplicates a sibling.
    pub fn or_open_child(&mut self, p: Accn, name: &str) -> (r: Accn)
        requires
            old(self).wf(),
            old(self).valid(p),
        ensures
            final(self).wf(),
            final(self)@ == open_spec(old(self)@, p.id_spec(), name@).0,
            r.id_spec() == open_spec(old(self)@, p.id_spec(), name@).1,
            final(self).valid(r),
            final(self)@[r.id_spec()].name == name@,
            final(self)@[r.id_spec()].parent == Some(p.id_spec()),
            r.id_spec() != ROOT,
    {
        proof {
            lemma_open_wf(old(self)@, p.id_spec(), name@);
        }
        let n = self.nodes.len();
        let ghost pid = p.id_spec();
        let mut i: usize = 0;
        while i < n
            invariant
                0 <= i <= n == self@.len(),
                self.nodes@ == old(self).nodes@,
                find_child_from(self@, pid, name@, i as int) == find_child(self@, pid, name@),
                forall|j: int| #![auto]
                    0 <= j < i ==> !(self@[j].parent == Some(pid) && self@[j].name == name@),
            decreases n - i,
        {
            proof {
                assert(self@[i as int] == self.nodes@[i as int].view_node());
            }
            let node_parent = self.nodes[i].parent;
            let parent_hit = match node_parent {
                Some(q) => q == p.id,
                None => false,
            };
            if parent_hit {
                let name_hit = str_eq(self.nodes[i].name.as_str(), name);
                if name_hit {
                    proof {
                        assert(self@[i as int].parent == Some(pid));
                        assert(self@[i as int].name == name@);
                        assert(find_child(self@, pid, name@) == Some(i as int));
                    }
                    return Accn { id: i };
                }
            }
            proof {
                assert(!(self@[i as int].parent == Some(pid) && self@[i as int].name == name@));
            }
            i = i + 1;
        }
        proof {
            assert(find_child(self@, pid, name@) is None);
        }
        self.nodes.push(AccnNode { name: String::from_str(name), parent: Some(p.id) });
        proof {
            assert(self@ =~= open_spec(old(self)@, pid, name@).0);
        }
        Accn { id: n }
    }
}


/// The absolute name: ancestor names from just below the root down to the
/// account itself, joined with ':'.
pub open spec fn abs_name_spec(nodes: Seq<AccnNodeV>, i: int) -> Seq<char>
    decreases i,
{
    if i <= 0 || i >= nodes.len() {
        Seq::empty()
    } else {
        match nodes[i].parent {
            None => Seq::empty(),
            Some(p) => if p == 0 {
                nodes[i].name
            } else if 0 < p < i {
                abs_name_spec(nodes, p) + seq![':'] + nodes[i].name
            } else {
                Seq::empty()
            },
        }
    }
}

/// Appending nodes never changes an existing account's absolute name.
pub proof fn lemma_abs_name_extend(nodes: Seq<AccnNodeV>, more: Seq<AccnNodeV>, i: int)
    requires
        nodes.len() <= more.len(),
        more.take(nodes.len() as int) == nodes,
        0 <= i < nodes.len(),
    ensures
        abs_name_spec(more, i) == abs_name_spec(nodes, i),
    decreases i,
{
    assert forall|j: int| 0 <= j < nodes.len() implies more[j] == nodes[j] by {
        assert(more.take(nodes.len() as int)[j] == more[j]);
    }
    if 0 < i {
        match nodes[i].parent {
            None => {},
            Some(p) => {
                if 0 < p < i {
                    lemma_abs_name_extend(nodes, more, p);
                }
            },
        }
    }
}

/// Segment texts joined with ':'.
pub open spec fn join_colon(segs: Seq<Seq<char>>) -> Seq<char>
    decreases segs.len(),
{
    if segs.len() == 0 {
        Seq::empty()
    } else if segs.len() == 1 {
        segs[0]
    } else {
        join_colon(segs.drop_last()) + seq![':'] + segs.last()
    }
}

/// The tree after resolving a path from the root, opening what is missing,
/// with the account the path names.
pub open spec fn resolve_spec(nodes: Seq<AccnNodeV>, segs: Seq<Seq<char>>) -> (
    Seq<AccnNodeV>,
    int,
)
    decreases segs.len(),
{
    if segs.len() == 0 {
        (nodes, 0)
    } else {
        let prev = resolve_spec(nodes, segs.drop_last());
        open_spec(prev.0, prev.1, segs.last())
    }
}

/// Resolving keeps the tree well formed, only appends nodes, and lands on a
/// non-root account; and the account's absolute name is the path joined with
/// ':' — resolution and naming are inverse (the path round trip).
pub proof fn lemma_resolve_round_trip(nodes: Seq<AccnNodeV>, segs: Seq<Seq<char>>)
    requires
        tree_wf(nodes),
        segs.len() >= 1,
    ensures
        tree_wf(resolve_spec(nodes, segs).0),
        nodes.len() <= resolve_spec(nodes, segs).0.len(),
        resolve_spec(nodes, segs).0.take(nodes.len() as int) == nodes,
        1 <= resolve_spec(nodes, segs).1 < resolve_spec(nodes, segs).0.len(),
        abs_name_spec(resolve_spec(nodes, segs).0, resolve_spec(nodes, segs).1) == join_colon(
            segs,
        ),
    decreases segs.len(),
{
    if segs.len() == 1 {
        lemma_open_wf(nodes, 0, segs.last());
        let t = open_spec(nodes, 0, segs.last());
        assert(abs_name_spec(t.0, t.1) == segs[0]);
    } else {
        lemma_resolve_round_trip(nodes, segs.drop_last());
        let prev = resolve_spec(nodes, segs.drop_last());
        lemma_open_wf(prev.0, prev.1, segs.last());
        let t = open_spec(prev.0, prev.1, segs.last());
        assert(t.0.take(nodes.len() as int) =~= nodes) by {
            assert forall|j: int| 0 <= j < nodes.len() implies t.0[j] == nodes[j] by {
                assert(t.0.take(prev.0.len() as int)[j] == t.0[j]);
                assert(prev.0.take(nodes.len() as int)[j] == prev.0[j]);
            }
        }
        assert(abs_name_spec(t.0, prev.1) == abs_name_spec(prev.0, prev.1)) by {
            lemma_abs_name_extend(prev.0, t.0, prev.1);
        }
        assert(abs_name_spec(t.0, t.1) == abs_name_spec(t.0, prev.1) + seq![':'] + segs.last());
    }
}

/// The `k`-th ancestor: the account itself for `k == 0`, then parents.
pub open spec fn kth_anc(nodes: Seq<AccnNodeV>, i: int, k: nat) -> Option<int>
    decreases k,
{
    if !(0 <= i < nodes.len()) {
        None
    } else if k == 0 {
        Some(i)
    } else {
        match nodes[i].parent {
            None => None,
            Some(p) => kth_anc(nodes, p, (k - 1) as nat),
        }
    }
}

/// Fuzzy path match: each of the last `tokens.len()` names on the account's
/// ancestor chain (the account first) contains, case-insensitively, the
/// corresponding token, the last token checked against the account itself.
/// The synthetic root is never yielded, though its name may take part in a
/// window.
pub open spec fn fuzzy_matches(nodes: Seq<AccnNodeV>, i: int, tokens: Seq<Seq<char>>) -> bool {
    &&& 1 <= i < nodes.len()
    &&& tokens.len() >= 1
    &&& forall|j: int|
        0 <= j < tokens.len() ==> (#[trigger] kth_anc(nodes, i, j as nat)) is Some && contains_ci(
            nodes[kth_anc(nodes, i, j as nat)->Some_0].name,
            tokens[tokens.len() - 1 - j],
        )
}

/// Is `a` a proper ancestor of `d`?
pub open spec fn in_ancestors(nodes: Seq<AccnNodeV>, d: int, a: int) -> bool
    decreases d,
{
    if !(0 < d < nodes.len()) {
        false
    } else {
        match nodes[d].parent {
            None => false,
            Some(p) => if 0 <= p < d {
                p == a || in_ancestors(nodes, p, a)
            } else {
                false
            },
        }
    }
}

/// Does some member of `ids` sit properly above `d`?
pub open spec fn has_proper_anc_in(nodes: Seq<AccnNodeV>, d: int, ids: Seq<Accn>) -> bool {
    exists|k: int| 0 <= k < ids.len() && in_ancestors(nodes, d, (#[trigger] ids[k]).id_spec())
}

/// The views of a list of path segments.
pub open spec fn seg_views(segs: Seq<String>) -> Seq<Seq<char>> {
    segs.map_values(|s: String| s@)
}

/// A query over the account store: every account, or the accounts whose own
/// name contains the given text.
pub enum AccnQuery {
    All,
    Name(String),
}

impl AccnQuery {
    /// The default query: it matches every account.
    pub fn new() -> (q: AccnQuery)
        ensures
            q == AccnQuery::All,
    {
        AccnQuery::All
    }

    pub fn name(self, name: String) -> (q: AccnQuery)
        ensures
            q == AccnQuery::Name(name),
    {
        AccnQuery::Name(name)
    }
}

/// Does account `i` answer the query?
pub open spec fn accn_query_matches(nodes: Seq<AccnNodeV>, q: AccnQuery, i: int) -> bool {
    match q {
        AccnQuery::All => true,
        AccnQuery::Name(s) => contains_seq(nodes[i].name, s@),
    }
}

impl AccnTree {
    /// The absolute name of an account, ancestor names joined with ':'.
    pub fn abs_name(&self, a: Accn) -> (r: String)
        requires
            self.wf(),
            self.valid(a),
        ensures
            r@ == abs_name_spec(self@, a.id_spec()),
        decreases a.id_spec(),
    {
        proof {
            reveal_strlit(":");
            assert(self@[a.id_spec()] == self.nodes@[a.id_spec()].view_node());
        }
        if a.id == 0 {
            return String::new();
        }
        let parent = match self.nodes[a.id].parent {
            Some(p) => p,
            None => 0,
        };
        if parent == 0 {
            self.nodes[a.id].name.clone()
        } else {
            let rest = self.abs_name(Accn { id: parent });
            let sep = rest.concat(":");
            let mut out = sep;
            out.append(self.nodes[a.id].name.as_str());
            proof {
                assert(":"@ =~= seq![':']);
            }
            out
        }
    }

    /// Resolves a path of segment names from the root, opening what is
    /// missing along the way.
    pub fn resolve_path(&mut self, segs: &Vec<String>) -> (r: Accn)
        requires
            old(self).wf(),
            segs@.len() >= 1,
        ensures
            final(self).wf(),
            final(self)@ == resolve_spec(old(self)@, seg_views(segs@)).0,
            r.id_spec() == resolve_spec(old(self)@, seg_views(segs@)).1,
            final(self).valid(r),
            r.id_spec() != ROOT,
    {
        proof {
            lemma_resolve_round_trip(old(self)@, seg_views(segs@));
        }
        let n = segs.len();
        let mut cur = self.root();
        let mut i: usize = 0;
        while i < n
            invariant
                0 <= i <= n == segs@.len(),
                self.wf(),
                i >= 1 ==> 1 <= cur.id_spec() < self@.len(),
                i == 0 ==> cur.id_spec() == 0 && self@ == old(self)@,
                (self@, cur.id_spec()) == resolve_spec(old(self)@, seg_views(segs@).take(i as int)),
            decreases n - i,
        {
            proof {
                assert(seg_views(segs@).take(i + 1).drop_last() =~= seg_views(segs@).take(
                    i as int,
                ));
                assert(seg_views(segs@).take(i + 1).last() == segs@[i as int]@);
            }
            cur = self.or_open_child(cur, segs[i].as_str());
            i = i + 1;
        }
        proof {
            assert(seg_views(segs@).take(n as int) =~= seg_views(segs@));
        }
        cur
    }

    /// Is `a` a proper ancestor of `d`?
    pub fn is_ancestor(&self, a: Accn, d: Accn) -> (r: bool)
        requires
            self.wf(),
            self.valid(a),
            self.valid(d),
        ensures
            r == in_ancestors(self@, d.id_spec(), a.id_spec()),
    {
        let mut cur: usize = d.id;
        loop
            invariant
                0 <= cur < self@.len(),
                in_ancestors(self@, d.id_spec(), a.id_spec()) == in_ancestors(
                    self@,
                    cur as int,
                    a.id_spec(),
                ),
            decreases cur,
        {
            proof {
                assert(self@[cur as int] == self.nodes@[cur as int].view_node());
            }
            match self.nodes[cur].parent {
                Some(p) => {
                    if p == a.id {
                        return true;
                    }
                    cur = p;
                },
                None => {
                    return false;
                },
            }
        }
    }

    /// The accounts whose trailing ancestor-name window matches the tokens,
    /// case-insensitively and position by position.  The matched set is the
    /// point; as the deliberate deterministic order the matches come in
    /// identity (creation) order, which on a chain coincides with a
    /// depth-first pre-order walk.
    pub fn by_name_fuzzy(&self, tokens: &Vec<String>) -> (r: Vec<Accn>)
        requires
            self.wf(),
            tokens@.len() >= 1,
        ensures
            forall|k: int|
                0 <= k < r@.len() ==> fuzzy_matches(
                    self@,
                    (#[trigger] r@[k]).id_spec(),
                    seg_views(tokens@),
                ),
            forall|a: int, b: int| 0 <= a < b < r@.len() ==> r@[a].id_spec() < r@[b].id_spec(),
            forall|i: int|
                1 <= i < self@.len() && fuzzy_matches(self@, i, seg_views(tokens@)) ==> exists|
                    k: int,
                |
                    0 <= k < r@.len() && (#[trigger] r@[k]).id_spec() == i,
    {
        let n = self.nodes.len();
        let tn = tokens.len();
        let mut r: Vec<Accn> = Vec::new();
        let mut i: usize = 1;
        while i < n
            invariant
                1 <= i <= n == self@.len(),
                tn == tokens@.len(),
                forall|k: int|
                    0 <= k < r@.len() ==> fuzzy_matches(
                        self@,
                        (#[trigger] r@[k]).id_spec(),
                        seg_views(tokens@),
                    ),
                forall|a: int, b: int| 0 <= a < b < r@.len() ==> r@[a].id_spec() < r@[b].id_spec(),
                forall|k: int| 0 <= k < r@.len() ==> 1 <= (#[trigger] r@[k]).id_spec() < i,
                forall|q: int|
                    1 <= q < i && fuzzy_matches(self@, q, seg_views(tokens@)) ==> exists|k: int|
                        0 <= k < r@.len() && (#[trigger] r@[k]).id_spec() == q,
            decreases n - i,
        {
            let ghost r0 = r@;
            let mut cur: usize = i;
            let mut j: usize = 0;
            let mut ok: bool = true;
            while j < tn && ok
                invariant
                    1 <= i < n == self@.len(),
                    tn == tokens@.len(),
                    0 <= j <= tn,
                    ok && j < tn ==> kth_anc(self@, i as int, j as nat) == Some(cur as int),
                    ok && j < tn ==> 0 <= cur < self@.len(),
                    ok ==> forall|q: int|
                        0 <= q < j ==> (#[trigger] kth_anc(self@, i as int, q as nat)) is Some
                            && contains_ci(
                            self@[kth_anc(self@, i as int, q as nat)->Some_0].name,
                            seg_views(tokens@)[tn - 1 - q],
                        ),
                    !ok ==> !fuzzy_matches(self@, i as int, seg_views(tokens@)),
                decreases tn - j,
            {
                proof {
                    assert(self@[cur as int] == self.nodes@[cur as int].view_node());
                }
                let hit = str_contains_ci(
                    self.nodes[cur].name.as_str(),
                    tokens[tn - 1 - j].as_str(),
                );
                if !hit {
                    proof {
                        assert(!fuzzy_matches(self@, i as int, seg_views(tokens@))) by {
                            if fuzzy_matches(self@, i as int, seg_views(tokens@)) {
                                assert((kth_anc(self@, i as int, j as nat)) is Some
                                    && contains_ci(
                                    self@[kth_anc(self@, i as int, j as nat)->Some_0].name,
                                    seg_views(tokens@)[tn - 1 - j],
                                ));
                            }
                        }
                    }
                    ok = false;
                } else {
                    if j + 1 < tn {
                        match self.nodes[cur].parent {
                            Some(p) => {
                                proof {
                                    lemma_kth_anc_step(self@, i as int, j as nat, cur as int);
                                }
                                cur = p;
                            },
                            None => {
                                proof {
                                    lemma_kth_anc_dead_end(self@, i as int, j as nat, cur as int);
                                    assert(!fuzzy_matches(self@, i as int, seg_views(tokens@)))
                                        by {
                                        if fuzzy_matches(self@, i as int, seg_views(tokens@)) {
                                            assert((kth_anc(self@, i as int, (j + 1) as nat))
                                                is Some);
                                        }
                                    }
                                }
                                ok = false;
                            },
                        }
                    }
                }
                j = j + 1;
            }
            if ok {
                proof {
                    assert(fuzzy_matches(self@, i as int, seg_views(tokens@)));
                }
                r.push(Accn { id: i });
            }
            proof {
                assert forall|q: int|
                    1 <= q < i + 1 && fuzzy_matches(self@, q, seg_views(tokens@)) implies exists|
                    k: int,
                |
                    0 <= k < r@.len() && (#[trigger] r@[k]).id_spec() == q by {
                    if q == i as int {
                        assert(ok);
                        assert(r@[r@.len() - 1].id_spec() == q);
                    } else {
                        let k = choose|k: int|
                            0 <= k < r0.len() && (#[trigger] r0[k]).id_spec() == q;
                        assert(r@[k].id_spec() == q);
                    }
                }
            }
            i = i + 1;
        }
        r
    }

    /// The members of `ids` none of whose proper ancestors are also members:
    /// the outermost of every nested family, kept in their given order.
    pub fn elders(&self, ids: &Vec<Accn>) -> (r: Vec<Accn>)
        requires
            self.wf(),
            forall|k: int| 0 <= k < ids@.len() ==> self.valid(#[trigger] ids@[k]),
        ensures
            r@ == ids@.filter(
                |x: Accn| !has_proper_anc_in(self@, x.id_spec(), ids@),
            ),
    {
        let n = ids.len();
        let mut r: Vec<Accn> = Vec::new();
        let mut i: usize = 0;
        while i < n
            invariant
                0 <= i <= n == ids@.len(),
                r@ == ids@.take(i as int).filter(
                    |x: Accn| !has_proper_anc_in(self@, x.id_spec(), ids@),
                ),
            decreases n - i,
        {
            let cand = ids[i];
            let mut shadowed: bool = false;
            let mut k: usize = 0;
            while k < n
                invariant
                    0 <= k <= n == ids@.len(),
                    shadowed ==> has_proper_anc_in(self@, cand.id_spec(), ids@),
                    !shadowed ==> forall|q: int|
                        0 <= q < k ==> !in_ancestors(
                            self@,
                            cand.id_spec(),
                            (#[trigger] ids@[q]).id_spec(),
                        ),
                decreases n - k,
            {
                if !shadowed {
                    if self.is_ancestor(ids[k], cand) {
                        shadowed = true;
                    }
                }
                k = k + 1;
            }
            proof {
                reveal(Seq::filter);
                let pred = |x: Accn| !has_proper_anc_in(self@, x.id_spec(), ids@);
                assert(ids@.take(i + 1).drop_last() =~= ids@.take(i as int));
                assert(ids@.take(i + 1).last() == cand);
                if !shadowed {
                    assert(!has_proper_anc_in(self@, cand.id_spec(), ids@));
                    assert(pred(cand));
                } else {
                    assert(!pred(cand));
                }
            }
            if !shadowed {
                r.push(cand);
            }
            i = i + 1;
        }
        proof {
            assert(ids@.take(n as int) =~= ids@);
        }
        r
    }

    /// The accounts answering a query, in identity order.
    pub fn query(&self, q: &AccnQuery) -> (r: Vec<Accn>)
        requires
            self.wf(),
        ensures
            forall|k: int|
                0 <= k < r@.len() ==> 0 <= (#[trigger] r@[k]).id_spec() < self@.len()
                    && accn_query_matches(self@, *q, r@[k].id_spec()),
            forall|a: int, b: int| 0 <= a < b < r@.len() ==> r@[a].id_spec() < r@[b].id_spec(),
            forall|i: int|
                0 <= i < self@.len() && accn_query_matches(self@, *q, i) ==> exists|k: int|
                    0 <= k < r@.len() && (#[trigger] r@[k]).id_spec() == i,
    {
        let n = self.nodes.len();
        let mut r: Vec<Accn> = Vec::new();
        let mut i: usize = 0;
        while i < n
            invariant
                0 <= i <= n == self@.len(),
                forall|k: int|
                    0 <= k < r@.len() ==> 0 <= (#[trigger] r@[k]).id_spec() < self@.len()
                        && accn_query_matches(self@, *q, r@[k].id_spec()),
                forall|a: int, b: int| 0 <= a < b < r@.len() ==> r@[a].id_spec() < r@[b].id_spec(),
                forall|k: int| 0 <= k < r@.len() ==> (#[trigger] r@[k]).id_spec() < i,
                forall|p: int|
                    0 <= p < i && accn_query_matches(self@, *q, p) ==> exists|k: int|
                        0 <= k < r@.len() && (#[trigger] r@[k]).id_spec() == p,
            decreases n - i,
        {
            proof {
                assert(self@[i as int] == self.nodes@[i as int].view_node());
            }
            let ghost r0 = r@;
            let hit = match q {
                AccnQuery::All => true,
                AccnQuery::Name(s) => str_contains(self.nodes[i].name.as_str(), s.as_str()),
            };
            proof {
                assert(hit == accn_query_matches(self@, *q, i as int));
            }
            if hit {
                r.push(Accn { id: i });
            }
            proof {
                assert forall|p: int|
                    0 <= p < i + 1 && accn_query_matches(self@, *q, p) implies exists|k: int|
                        0 <= k < r@.len() && (#[trigger] r@[k]).id_spec() == p by {
                    if p == i as int {
                        assert(r@[r@.len() - 1].id_spec() == p);
                    } else {
                        let k = choose|k: int|
                            0 <= k < r0.len() && (#[trigger] r0[k]).id_spec() == p;
                        assert(r@[k].id_spec() == p);
                    }
                }
            }
            i = i + 1;
        }
        r
    }

    /// The account with exactly this display name, when there is exactly
    /// one; otherwise the full candidate list (possibly empty), so a front
    /// end can disambiguate or report the miss.
    pub fn by_name_unique(&self, name: &str) -> (r: Result<Accn, Vec<Accn>>)
        requires
            self.wf(),
        ensures
            (match r {
                Ok(a) => 0 <= a.id_spec() < self@.len() && self@[a.id_spec()].name == name@
                    && forall|i: int|
                    0 <= i < self@.len() && i != a.id_spec() ==> (#[trigger] self@[i]).name
                        != name@,
                Err(v) => {
                    &&& v@.len() != 1
                    &&& forall|k: int|
                        0 <= k < v@.len() ==> 0 <= (#[trigger] v@[k]).id_spec() < self@.len()
                            && self@[v@[k].id_spec()].name == name@
                    &&& forall|a: int, b: int|
                        0 <= a < b < v@.len() ==> v@[a].id_spec() < v@[b].id_spec()
                    &&& forall|i: int|
                        0 <= i < self@.len() && (#[trigger] self@[i]).name == name@ ==> exists|
                            k: int,
                        |
                            0 <= k < v@.len() && (#[trigger] v@[k]).id_spec() == i
                },
            }),
    {
        let n = self.nodes.len();
        let mut found: Vec<Accn> = Vec::new();
        let mut i: usize = 0;
        while i < n
            invariant
                0 <= i <= n == self@.len(),
                forall|k: int|
                    0 <= k < found@.len() ==> 0 <= (#[trigger] found@[k]).id_spec() < self@.len()
                        && self@[found@[k].id_spec()].name == name@,
                forall|a: int, b: int|
                    0 <= a < b < found@.len() ==> found@[a].id_spec() < found@[b].id_spec(),
                forall|k: int| 0 <= k < found@.len() ==> (#[trigger] found@[k]).id_spec() < i,
                forall|p: int|
                    0 <= p < i && (#[trigger] self@[p]).name == name@ ==> exists|k: int|
                        0 <= k < found@.len() && (#[trigger] found@[k]).id_spec() == p,
            decreases n - i,
        {
            proof {
                assert(self@[i as int] == self.nodes@[i as int].view_node());
            }
            let ghost f0 = found@;
            let hit = str_eq(self.nodes[i].name.as_str(), name);
            if hit {
                found.push(Accn { id: i });
            }
            proof {
                assert forall|p: int|
                    0 <= p < i + 1 && (#[trigger] self@[p]).name == name@ implies exists|k: int|
                        0 <= k < found@.len() && (#[trigger] found@[k]).id_spec() == p by {
                    if p == i as int {
                        assert(found@[found@.len() - 1].id_spec() == p);
                    } else {
                        let k = choose|k: int|
                            0 <= k < f0.len() && (#[trigger] f0[k]).id_spec() == p;
                        assert(found@[k].id_spec() == p);
                    }
                }
            }
            i = i + 1;
        }
        if found.len() == 1 {
            let a = found[0];
            proof {
                assert forall|p: int|
                    0 <= p < self@.len() && p != a.id_spec() implies (#[trigger] self@[p]).name
                    != name@ by {
                    if self@[p].name == name@ {
                        let k = choose|k: int|
                            0 <= k < found@.len() && (#[trigger] found@[k]).id_spec() == p;
                    }
                }
            }
            Ok(a)
        } else {
            Err(found)
        }
    }

    /// Provisions a contact: idempotently opens `liability:@name:payable`
    /// and `asset:@name:receivable` and hands back their identities.
    pub fn provision_contact(&mut self, name: &str) -> (c: Contact)
        requires
            old(self).wf(),
        ensures
            final(self).wf(),
            ({
                let at_name = "@"@ + name@;
                let t1 = open_spec(old(self)@, LIABILITY as int, at_name);
                let t2 = open_spec(t1.0, t1.1, "payable"@);
                let t3 = open_spec(t2.0, ASSET as int, at_name);
                let t4 = open_spec(t3.0, t3.1, "receivable"@);
                &&& final(self)@ == t4.0
                &&& c.payable.id_spec() == t2.1
                &&& c.receivable.id_spec() == t4.1
                &&& final(self).valid(c.payable)
                &&& final(self).valid(c.receivable)
            }),
    {
        let at = String::from_str("@");
        let at_name = at.concat(name);
        let liability = Accn { id: LIABILITY };
        let asset = Accn { id: ASSET };
        let a1 = self.or_open_child(liability, at_name.as_str());
        let pay = self.or_open_child(a1, "payable");
        let a2 = self.or_open_child(asset, at_name.as_str());
        let recv = self.or_open_child(a2, "receivable");
        proof {
            let t2 = open_spec(
                open_spec(old(self)@, LIABILITY as int, "@"@ + name@).0,
                open_spec(old(self)@, LIABILITY as int, "@"@ + name@).1,
                "payable"@,
            );
            lemma_open_wf(old(self)@, LIABILITY as int, "@"@ + name@);
            lemma_open_wf(
                open_spec(old(self)@, LIABILITY as int, "@"@ + name@).0,
                open_spec(old(self)@, LIABILITY as int, "@"@ + name@).1,
                "payable"@,
            );
            lemma_open_wf(t2.0, ASSET as int, "@"@ + name@);
            lemma_open_wf(
                open_spec(t2.0, ASSET as int, "@"@ + name@).0,
                open_spec(t2.0, ASSET as int, "@"@ + name@).1,
                "receivable"@,
            );
        }
        Contact { payable: pay, receivable: recv }
    }
}


/// The first child of `p` at or after `k` whose name contains the token,
/// case-insensitively.
pub open spec fn find_fuzzy_child_from(
    nodes: Seq<AccnNodeV>,
    p: int,
    tok: Seq<char>,
    k: int,
) -> Option<int>
    decreases nodes.len() - k,
{
    if k < 0 || k >= nodes.len() {
        None
    } else if nodes[k].parent == Some(p) && contains_ci(nodes[k].name, tok) {
        Some(k)
    } else {
        find_fuzzy_child_from(nodes, p, tok, k + 1)
    }
}

/// The unique fuzzy child of `p`, when exactly one child matches.
pub open spec fn unique_fuzzy_child(nodes: Seq<AccnNodeV>, p: int, tok: Seq<char>) -> Option<int> {
    match find_fuzzy_child_from(nodes, p, tok, 0) {
        None => None,
        Some(i) => match find_fuzzy_child_from(nodes, p, tok, i + 1) {
            None => Some(i),
            Some(_) => None,
        },
    }
}

/// Once fuzzy resolution fails on a prefix it fails on the whole path.
proof fn lemma_fuzzy_resolve_none(nodes: Seq<AccnNodeV>, segs: Seq<Seq<char>>, adds: bool, k: int)
    requires
        1 <= k <= segs.len(),
        fuzzy_resolve_spec(nodes, segs.take(k), adds) is None,
    ensures
        fuzzy_resolve_spec(nodes, segs, adds) is None,
    decreases segs.len() - k,
{
    if k == segs.len() {
        assert(segs.take(k) =~= segs);
    } else {
        assert(segs.take(k + 1).drop_last() =~= segs.take(k));
        assert(fuzzy_resolve_spec(nodes, segs.take(k + 1), adds) is None);
        lemma_fuzzy_resolve_none(nodes, segs, adds, k + 1);
    }
}

/// One step of fuzzy resolution: descend into the unique matching child, or
/// (when allowed) open the name as written; otherwise give up.
pub open spec fn fuzzy_step_spec(nodes: Seq<AccnNodeV>, cur: int, tok: Seq<char>, adds: bool) -> Option<
    (Seq<AccnNodeV>, int),
> {
    match unique_fuzzy_child(nodes, cur, tok) {
        Some(i) => Some((nodes, i)),
        None => if adds {
            Some(open_spec(nodes, cur, tok))
        } else {
            None
        },
    }
}

/// Fuzzy path resolution: the first segment must name a category uniquely;
/// each later segment descends into the unique matching child, or opens the
/// segment as written when creation is allowed.
pub open spec fn fuzzy_resolve_spec(nodes: Seq<AccnNodeV>, segs: Seq<Seq<char>>, adds: bool) -> Option<
    (Seq<AccnNodeV>, int),
>
    decreases segs.len(),
{
    if segs.len() == 0 {
        None
    } else if segs.len() == 1 {
        match unique_fuzzy_child(nodes, 0, segs[0]) {
            None => None,
            Some(i) => Some((nodes, i)),
        }
    } else {
        match fuzzy_resolve_spec(nodes, segs.drop_last(), adds) {
            None => None,
            Some(prev) => fuzzy_step_spec(prev.0, prev.1, segs.last(), adds),
        }
    }
}

impl AccnTree {
    /// The first child of `p` at or after index `from` whose name contains
    /// the token, case-insensitively.
    fn find_fuzzy_child(&self, p: Accn, tok: &str, from: usize) -> (r: Option<Accn>)
        requires
            self.wf(),
            from as int <= self@.len(),
        ensures
            (match find_fuzzy_child_from(self@, p.id_spec(), tok@, from as int) {
                Some(i) => r is Some && r->Some_0.id_spec() == i,
                None => r is None,
            }),
            r is Some ==> 0 <= r->Some_0.id_spec() < self@.len(),
    {
        let n = self.nodes.len();
        let mut i: usize = from;
        while i < n
            invariant
                0 <= i <= n == self@.len(),
                i >= from,
                find_fuzzy_child_from(self@, p.id_spec(), tok@, from as int)
                    == find_fuzzy_child_from(self@, p.id_spec(), tok@, i as int),
            decreases n - i,
        {
            proof {
                assert(self@[i as int] == self.nodes@[i as int].view_node());
            }
            let node_parent = self.nodes[i].parent;
            let parent_hit = match node_parent {
                Some(q) => q == p.id,
                None => false,
            };
            if parent_hit {
                let name_hit = str_contains_ci(self.nodes[i].name.as_str(), tok);
                if name_hit {
                    proof {
                        assert(find_fuzzy_child_from(self@, p.id_spec(), tok@, i as int) == Some(
                            i as int,
                        ));
                    }
                    return Some(Accn { id: i });
                }
            }
            i = i + 1;
        }
        None
    }

    /// Resolves a path of fuzzy segments from the root: the first segment
    /// must pick a top-level category uniquely; each later segment descends
    /// into the unique child whose name contains it, and with `adds` a
    /// segment that matches no child (or several) is opened as written.
    pub fn fuzzy_resolve_path(&mut self, segs: &Vec<String>, adds: bool) -> (r: Option<Accn>)
        requires
            old(self).wf(),
            segs@.len() >= 1,
        ensures
            final(self).wf(),
            (match fuzzy_resolve_spec(old(self)@, seg_views(segs@), adds) {
                Some(prev) => r is Some && final(self)@ == prev.0 && r->Some_0.id_spec()
                    == prev.1,
                None => r is None && final(self)@ == old(self)@,
            }),
    {
        proof {
            assert(seg_views(segs@)[0] == segs@[0]@);
            assert(seg_views(segs@).take(1)[0] == segs@[0]@);
        }
        let total = self.nodes.len();
        proof {
            assert(self@.len() == total);
        }
        let root = self.root();
        let first = match self.find_fuzzy_child(root, segs[0].as_str(), 0) {
            Some(a) => a,
            None => {
                proof {
                    assert(fuzzy_resolve_spec(self@, seg_views(segs@).take(1), adds) is None);
                    lemma_fuzzy_resolve_none(self@, seg_views(segs@), adds, 1);
                }
                return None;
            },
        };
        proof {
            assert(first.id_spec() < total as int);
        }
        let next_from = first.id + 1;
        let dup = self.find_fuzzy_child(root, segs[0].as_str(), next_from);
        if dup.is_some() {
            proof {
                assert(unique_fuzzy_child(self@, 0, seg_views(segs@).take(1)[0]) is None);
                assert(fuzzy_resolve_spec(self@, seg_views(segs@).take(1), adds) is None);
                lemma_fuzzy_resolve_none(self@, seg_views(segs@), adds, 1);
            }
            return None;
        }
        proof {
            assert(unique_fuzzy_child(self@, 0, seg_views(segs@).take(1)[0]) == Some(
                first.id_spec(),
            ));
            assert(fuzzy_resolve_spec(self@, seg_views(segs@).take(1), adds) == Some(
                (self@, first.id_spec()),
            ));
        }
        let mut cur = first;
        let n = segs.len();
        let mut i: usize = 1;
        while i < n
            invariant
                1 <= i <= n == segs@.len(),
                self.wf(),
                0 <= cur.id_spec() < self@.len(),
                fuzzy_resolve_spec(old(self)@, seg_views(segs@).take(i as int), adds) == Some(
                    (self@, cur.id_spec()),
                ),
                !adds ==> self@ == old(self)@,
            decreases n - i,
        {
            proof {
                assert(seg_views(segs@).take(i + 1).drop_last() =~= seg_views(segs@).take(
                    i as int,
                ));
                assert(seg_views(segs@).take(i + 1).last() == segs@[i as int]@);
            }
            let here = self.nodes.len();
            proof {
                assert(self@.len() == here);
            }
            let found = self.find_fuzzy_child(cur, segs[i].as_str(), 0);
            let unique = match found {
                Some(c) => {
                    proof {
                        assert(c.id_spec() < here as int);
                    }
                    let dup2 = self.find_fuzzy_child(cur, segs[i].as_str(), c.id + 1);
                    if dup2.is_some() {
                        None
                    } else {
                        Some(c)
                    }
                },
                None => None,
            };
            match unique {
                Some(c) => {
                    proof {
                        assert(unique_fuzzy_child(self@, cur.id_spec(), segs@[i as int]@)
                            == Some(c.id_spec()));
                    }
                    cur = c;
                },
                None => {
                    proof {
                        assert(unique_fuzzy_child(self@, cur.id_spec(), segs@[i as int]@)
                            is None);
                    }
                    if !adds {
                        proof {
                            assert(fuzzy_resolve_spec(
                                old(self)@,
                                seg_views(segs@).take(i + 1),
                                adds,
                            ) is None);
                            lemma_fuzzy_resolve_none(old(self)@, seg_views(segs@), adds, i + 1);
                        }
                        return None;
                    }
                    cur = self.or_open_child(cur, segs[i].as_str());
                },
            }
            i = i + 1;
        }
        proof {
            assert(seg_views(segs@).take(n as int) =~= seg_views(segs@));
        }
        Some(cur)
    }
}

/// Walking one parent step extends the ancestor index by one.
proof fn lemma_kth_anc_step(nodes: Seq<AccnNodeV>, i: int, j: nat, cur: int)
    requires
        kth_anc(nodes, i, j) == Some(cur),
        0 <= cur < nodes.len(),
        nodes[cur].parent is Some,
    ensures
        kth_anc(nodes, i, j + 1) == kth_anc(nodes, cur, 1),
        kth_anc(nodes, i, j + 1) == (if 0 <= nodes[cur].parent->Some_0 < nodes.len() {
            Some(nodes[cur].parent->Some_0)
        } else {
            None::<int>
        }),
    decreases j,
{
    if j > 0 {
        if 0 <= i < nodes.len() {
            match nodes[i].parent {
                Some(p) => {
                    lemma_kth_anc_step(nodes, p, (j - 1) as nat, cur);
                },
                None => {},
            }
        }
    }
    let p = nodes[cur].parent->Some_0;
    assert(kth_anc(nodes, cur, 1) == kth_anc(nodes, p, 0));
    assert(kth_anc(nodes, p, 0) == (if 0 <= p < nodes.len() {
        Some(p)
    } else {
        None::<int>
    }));
}

/// Past the root there are no further ancestors.
proof fn lemma_kth_anc_dead_end(nodes: Seq<AccnNodeV>, i: int, j: nat, cur: int)
    requires
        kth_anc(nodes, i, j) == Some(cur),
        0 <= cur < nodes.len(),
        nodes[cur].parent is None,
    ensures
        kth_anc(nodes, i, j + 1) is None,
    decreases j,
{
    if j > 0 {
        if 0 <= i < nodes.len() {
            match nodes[i].parent {
                Some(p) => {
                    lemma_kth_anc_dead_end(nodes, p, (j - 1) as nat, cur);
                },
                None => {},
            }
        }
    }
}

} // verus!
