//! Sort keys for the merged view and the classification policy that
//! assigns each changed file to its namespace.

use vstd::prelude::*;

verus! {

/// Coarse visual grouping of changed files. Conflicted files sort first
/// (most urgent), ordinary tracked modifications in the middle, newly
/// created files last — a fixed grouping independent of filesystem order.
#[derive(Clone, Copy, Debug, PartialEq, Eq, Structural)]
pub enum Namespace {
    Conflicted,
    Ordinary,
    New,
}

impl Namespace {
    /// Position of this namespace in the fixed visual order.
    pub open spec fn rank(self) -> int {
        match self {
            Namespace::Conflicted => 0,
            Namespace::Ordinary => 1,
            Namespace::New => 2,
        }
    }

    /// Executable counterpart of `rank`.
    pub fn rank_value(&self) -> (r: u8)
        ensures
            r as int == self.rank(),
    {
        match self {
            Namespace::Conflicted => 0,
            Namespace::Ordinary => 1,
            Namespace::New => 2,
        }
    }
}

/// Status flags reported for one path by the repository.
#[derive(Clone, Copy, Debug, PartialEq, Eq, Structural)]
pub enum FileStatus {
    Created,
    Modified,
    Deleted,
    Unchanged,
}

impl FileStatus {
    /// Only entries with changes are shown; unchanged entries are dropped
    /// before classification.
    pub open spec fn has_changes(self) -> bool {
        self != FileStatus::Unchanged
    }

    pub open spec fn is_created(self) -> bool {
        self == FileStatus::Created
    }

    pub open spec fn is_deleted(self) -> bool {
        self == FileStatus::Deleted
    }
}

/// Strict lexicographic (bytewise) order on byte sequences.
pub open spec fn lex_lt(a: Seq<u8>, b: Seq<u8>) -> bool
    decreases a.len(),
{
    if b.len() == 0 {
        false
    } else if a.len() == 0 {
        true
    } else if a[0] < b[0] {
        true
    } else if a[0] == b[0] {
        lex_lt(a.skip(1), b.skip(1))
    } else {
        false
    }
}

pub proof fn lemma_lex_lt_irrefl(a: Seq<u8>)
    ensures
        !lex_lt(a, a),
    decreases a.len(),
{
    if a.len() > 0 {
        lemma_lex_lt_irrefl(a.skip(1));
    }
}

pub proof fn lemma_lex_lt_asym(a: Seq<u8>, b: Seq<u8>)
    requires
        lex_lt(a, b),
    ensures
        !lex_lt(b, a),
    decreases a.len(),
{
    if a.len() > 0 && b.len() > 0 && a[0] == b[0] {
        lemma_lex_lt_asym(a.skip(1), b.skip(1));
    }
}

pub proof fn lemma_lex_lt_connected(a: Seq<u8>, b: Seq<u8>)
    requires
        !lex_lt(a, b),
        !lex_lt(b, a),
    ensures
        a == b,
    decreases a.len(),
{
    if a.len() == 0 && b.len() == 0 {
        assert(a =~= b);
    } else if a.len() > 0 && b.len() > 0 {
        lemma_lex_lt_connected(a.skip(1), b.skip(1));
        assert forall|i: int| 0 <= i < a.len() implies a[i] == b[i] by {
            if i > 0 {
                assert(a[i] == a.skip(1)[i - 1]);
                assert(b[i] == b.skip(1)[i - 1]);
            }
        }
        assert(a =~= b);
    }
}

pub proof fn lemma_lex_lt_trans(a: Seq<u8>, b: Seq<u8>, c: Seq<u8>)
    requires
        lex_lt(a, b),
        lex_lt(b, c),
    ensures
        lex_lt(a, c),
    decreases a.len(),
{
    if a.len() > 0 && b.len() > 0 && c.len() > 0 && a[0] == b[0] && b[0] == c[0] {
        lemma_lex_lt_trans(a.skip(1), b.skip(1), c.skip(1));
    }
}

/// An owned copy of a byte vector.
pub fn clone_bytes(v: &Vec<u8>) -> (r: Vec<u8>)
    ensures
        r@ == v@,
{
    let mut out: Vec<u8> = Vec::new();
    let mut i: usize = 0;
    while i < v.len()
        invariant
            i <= v.len(),
            out@ == v@.take(i as int),
        decreases v.len() - i,
    {
        out.push(v[i]);
        i = i + 1;
    }
    proof {
        assert(v@.take(v@.len() as int) =~= v@);
    }
    out
}

/// Sort key of one entry in the merged view: namespace first, then the
/// repository-relative path, compared bytewise. The visible order of the
/// merged view is exactly the sort order of these keys.
#[derive(Debug)]
pub struct PathKey {
    pub namespace: Namespace,
    pub path: Vec<u8>,
}

impl PathKey {
    /// Mathematical equality of keys.
    pub open spec fn eqv(self, other: PathKey) -> bool {
        self.namespace == other.namespace && self.path@ == other.path@
    }

    /// Strict total order on keys: by namespace rank, then bytewise by path.
    pub open spec fn lt(self, other: PathKey) -> bool {
        self.namespace.rank() < other.namespace.rank() || (self.namespace == other.namespace
            && lex_lt(self.path@, other.path@))
    }

    /// True when `self` sorts strictly before `other`.
    pub fn lt_key(&self, other: &PathKey) -> (r: bool)
        ensures
            r == self.lt(*other),
    {
        let sr = self.namespace.rank_value();
        let or = other.namespace.rank_value();
        if sr < or {
            true
        } else if or < sr {
            false
        } else {
            proof {
                assert(self.namespace == other.namespace);
            }
            bytes_lt(&self.path, &other.path)
        }
    }

    /// True when the two keys are the same key.
    pub fn eq_key(&self, other: &PathKey) -> (r: bool)
        ensures
            r == self.eqv(*other),
    {
        if self.namespace == other.namespace {
            bytes_eq(&self.path, &other.path)
        } else {
            false
        }
    }

    /// An owned copy of this key.
    pub fn clone_key(&self) -> (r: PathKey)
        ensures
            r.eqv(*self),
    {
        PathKey { namespace: self.namespace, path: clone_bytes(&self.path) }
    }
}

pub proof fn lemma_key_lt_irrefl(a: PathKey, b: PathKey)
    requires
        a.eqv(b),
    ensures
        !a.lt(b),
{
    lemma_lex_lt_irrefl(a.path@);
}

pub proof fn lemma_key_lt_asym(a: PathKey, b: PathKey)
    requires
        a.lt(b),
    ensures
        !b.lt(a),
{
    if a.namespace == b.namespace {
        lemma_lex_lt_asym(a.path@, b.path@);
    }
}

pub proof fn lemma_key_lt_connected(a: PathKey, b: PathKey)
    requires
        !a.lt(b),
        !b.lt(a),
    ensures
        a.eqv(b),
{
    assert(a.namespace == b.namespace);
    lemma_lex_lt_connected(a.path@, b.path@);
}

pub proof fn lemma_key_lt_trans(a: PathKey, b: PathKey, c: PathKey)
    requires
        a.lt(b),
        b.lt(c),
    ensures
        a.lt(c),
{
    if a.namespace == b.namespace && b.namespace == c.namespace {
        lemma_lex_lt_trans(a.path@, b.path@, c.path@);
    }
}

/// Bytewise equality of two byte vectors.
pub fn bytes_eq(a: &Vec<u8>, b: &Vec<u8>) -> (r: bool)
    ensures
        r == (a@ == b@),
{
    if a.len() != b.len() {
        return false;
    }
    let mut i: usize = 0;
    while i < a.len()
        invariant
            i <= a.len(),
            a.len() == b.len(),
            forall|j: int| 0 <= j < i ==> a@[j] == b@[j],
        decreases a.len() - i,
    {
        if a[i] != b[i] {
            return false;
        }
        i = i + 1;
    }
    proof {
        assert(a@ =~= b@);
    }
    true
}

/// Bytewise strict comparison of two byte vectors.
pub fn bytes_lt(a: &Vec<u8>, b: &Vec<u8>) -> (r: bool)
    ensures
        r == lex_lt(a@, b@),
{
    let mut i: usize = 0;
    proof {
        assert(a@.skip(0) =~= a@);
        assert(b@.skip(0) =~= b@);
    }
    while i < a.len() && i < b.len()
        invariant
            i <= a.len(),
            i <= b.len(),
            lex_lt(a@, b@) == lex_lt(a@.skip(i as int), b@.skip(i as int)),
        decreases a.len() - i,
    {
        if a[i] < b[i] {
            return true;
        }
        if a[i] > b[i] {
            return false;
        }
        proof {
            assert(a@.skip(i as int).skip(1) =~= a@.skip(i + 1));
            assert(b@.skip(i as int).skip(1) =~= b@.skip(i + 1));
        }
        i = i + 1;
    }
    a.len() < b.len()
}

/// Namespace policy: an unresolved merge conflict puts the path first,
/// a newly created untracked file puts it last, anything else is an
/// ordinary tracked change.
pub open spec fn spec_classify(status: FileStatus, has_conflict: bool) -> Namespace {
    if has_conflict {
        Namespace::Conflicted
    } else if status.is_created() {
        Namespace::New
    } else {
        Namespace::Ordinary
    }
}

/// Maps one changed-file status into its stable sort namespace.
pub fn classify(status: FileStatus, has_conflict: bool) -> (ns: Namespace)
    ensures
        ns == spec_classify(status, has_conflict),
{
    if has_conflict {
        Namespace::Conflicted
    } else if status == FileStatus::Created {
        Namespace::New
    } else {
        Namespace::Ordinary
    }
}

/// One reported status item, enriched by the host with the two facts only
/// the repository can answer: whether the path has an unresolved conflict,
/// and whether it maps to an openable document.
#[derive(Debug)]
pub struct ChangeEntry {
    pub path: Vec<u8>,
    pub status: FileStatus,
    pub conflicted: bool,
    pub openable: bool,
}

impl ChangeEntry {
    /// The sort key this entry classifies to.
    pub open spec fn spec_key(self) -> PathKey {
        PathKey { namespace: spec_classify(self.status, self.conflicted), path: self.path }
    }

    /// An entry is loaded only if it has changes and can be opened.
    pub open spec fn relevant(self) -> bool {
        self.status.has_changes() && self.openable
    }
}

} // verus!
