//! Expression trees: the symbolic representation of how a value was
//! computed, used for pattern search rather than evaluation.

use vstd::prelude::*;

verus! {

broadcast use vstd::std_specs::vec::group_vec_axioms;

/// A constant value carried by an expression tree, stored as a
/// canonical big-endian byte string (no leading zero byte).  Push
/// immediates of up to 32 bytes do not fit a machine word, so the
/// value is kept as bytes and compared by its numeric value.
pub struct BigVal {
    pub bytes: Vec<u8>,
}

/// Numeric value of a big-endian byte string.
pub open spec fn be_val(bytes: Seq<u8>) -> nat
    decreases bytes.len(),
{
    if bytes.len() == 0 {
        0
    } else {
        (be_val(bytes.drop_last()) * 256 + bytes.last()) as nat
    }
}

/// 256 raised to the `n`th power: the weight of a byte `n` places
/// from the low end.
pub open spec fn pow256(n: nat) -> nat
    decreases n,
{
    if n == 0 {
        1
    } else {
        256 * pow256((n - 1) as nat)
    }
}

pub proof fn lemma_pow256_pos(n: nat)
    ensures
        pow256(n) >= 1,
    decreases n,
{
    if n > 0 {
        lemma_pow256_pos((n - 1) as nat);
    }
}

pub proof fn lemma_pow256_mono(m: nat, n: nat)
    requires
        m <= n,
    ensures
        pow256(m) <= pow256(n),
    decreases n,
{
    if m < n {
        lemma_pow256_mono(m, (n - 1) as nat);
        lemma_pow256_pos((n - 1) as nat);
    }
}

/// A byte string of length `n` denotes a value below `256^n`.
pub proof fn lemma_be_val_bound(s: Seq<u8>)
    ensures
        be_val(s) < pow256(s.len()),
    decreases s.len(),
{
    if s.len() > 0 {
        lemma_be_val_bound(s.drop_last());
        assert(be_val(s.drop_last()) * 256 + s.last() < 256 * pow256((s.len() - 1) as nat))
            by (nonlinear_arith)
            requires
                be_val(s.drop_last()) < pow256((s.len() - 1) as nat),
                s.last() < 256,
        ;
    }
}

/// A byte string with a nonzero leading byte denotes a value of at
/// least `256^(n-1)`.
pub proof fn lemma_be_val_lower(s: Seq<u8>)
    requires
        s.len() > 0,
        s[0] != 0,
    ensures
        be_val(s) >= pow256((s.len() - 1) as nat),
    decreases s.len(),
{
    if s.len() == 1 {
        assert(be_val(s) == s[0]);
    } else {
        lemma_be_val_lower(s.drop_last());
        assert(be_val(s.drop_last()) * 256 >= pow256((s.len() - 2) as nat) * 256)
            by (nonlinear_arith)
            requires
                be_val(s.drop_last()) >= pow256((s.len() - 2) as nat),
        ;
    }
}

/// A byte string splits at any point into a high part, weighted by
/// the length of the low part, plus the low part.
pub proof fn lemma_be_val_split(s: Seq<u8>, k: int)
    requires
        0 <= k <= s.len(),
    ensures
        be_val(s) == be_val(s.take(k)) * pow256((s.len() - k) as nat) + be_val(s.skip(k)),
    decreases s.len() - k,
{
    if k == s.len() {
        assert(s.take(k) == s);
        assert(s.skip(k) =~= Seq::<u8>::empty());
        lemma_be_val_zeros(s.skip(k));
        assert(pow256((s.len() - k) as nat) == 1);
    } else {
        lemma_be_val_split(s, k + 1);
        let hi1 = s.take(k + 1);
        assert(hi1.drop_last() =~= s.take(k));
        assert(hi1.last() == s[k]);
        assert(be_val(hi1) == be_val(s.take(k)) * 256 + s[k]);
        let lo = s.skip(k);
        lemma_be_val_head(lo);
        assert(lo[0] == s[k]);
        assert(lo.skip(1) =~= s.skip(k + 1));
        let w = pow256((s.len() - k - 1) as nat);
        assert(pow256((s.len() - k) as nat) == 256 * w);
        assert(be_val(lo) == s[k] * w + be_val(s.skip(k + 1)));
        assert(be_val(s) == be_val(s.take(k)) * pow256((s.len() - k) as nat) + be_val(s.skip(k)))
            by (nonlinear_arith)
            requires
                be_val(s) == be_val(s.take(k + 1)) * w + be_val(s.skip(k + 1)),
                be_val(s.take(k + 1)) == be_val(s.take(k)) * 256 + s[k],
                pow256((s.len() - k) as nat) == 256 * w,
                be_val(s.skip(k)) == s[k] * w + be_val(s.skip(k + 1)),
        ;
    }
}

/// Peeling the leading byte: its weight is the length of the rest.
pub proof fn lemma_be_val_head(s: Seq<u8>)
    requires
        s.len() > 0,
    ensures
        be_val(s) == s[0] * pow256((s.len() - 1) as nat) + be_val(s.skip(1)),
    decreases s.len(),
{
    if s.len() == 1 {
        assert(s.skip(1) =~= Seq::<u8>::empty());
        lemma_be_val_zeros(s.skip(1));
        assert(s.drop_last() =~= Seq::<u8>::empty());
        lemma_be_val_zeros(s.drop_last());
        assert(be_val(s) == s[0]);
        assert(pow256((s.len() - 1) as nat) == 1);
        assert(be_val(s) == s[0] * pow256((s.len() - 1) as nat) + be_val(s.skip(1)));
    } else {
        lemma_be_val_head(s.drop_last());
        assert(s.drop_last()[0] == s[0]);
        assert(s.drop_last().skip(1) =~= s.skip(1).drop_last());
        assert(s.skip(1).len() > 0);
        assert(s.skip(1).last() == s.last());
        let w = pow256((s.len() - 2) as nat);
        let c = be_val(s.skip(1).drop_last());
        assert(pow256((s.len() - 1) as nat) == 256 * w);
        assert(be_val(s) == be_val(s.drop_last()) * 256 + s.last());
        assert(be_val(s.drop_last()) == s[0] * w + c);
        assert(be_val(s.skip(1)) == c * 256 + s.last());
        assert(be_val(s) == s[0] * pow256((s.len() - 1) as nat) + be_val(s.skip(1)))
            by (nonlinear_arith)
            requires
                be_val(s) == (s[0] * w + c) * 256 + s.last(),
                pow256((s.len() - 1) as nat) == 256 * w,
                be_val(s.skip(1)) == c * 256 + s.last(),
        ;
    }
}

/// An all-zero byte string denotes zero.
pub proof fn lemma_be_val_zeros(s: Seq<u8>)
    requires
        forall|i: int| 0 <= i < s.len() ==> s[i] == 0,
    ensures
        be_val(s) == 0,
    decreases s.len(),
{
    if s.len() > 0 {
        lemma_be_val_zeros(s.drop_last());
    }
}

/// Dropping an all-zero prefix keeps the value.
pub proof fn lemma_be_val_skip_zeros(s: Seq<u8>, k: int)
    requires
        0 <= k <= s.len(),
        forall|i: int| 0 <= i < k ==> s[i] == 0,
    ensures
        be_val(s.skip(k)) == be_val(s),
{
    lemma_be_val_split(s, k);
    assert(forall|i: int| 0 <= i < s.take(k).len() ==> s.take(k)[i] == 0);
    lemma_be_val_zeros(s.take(k));
}

/// Canonical byte strings are uniquely determined by their value.
pub proof fn lemma_canonical_unique(a: Seq<u8>, b: Seq<u8>)
    requires
        a.len() == 0 || a[0] != 0,
        b.len() == 0 || b[0] != 0,
        be_val(a) == be_val(b),
    ensures
        a == b,
    decreases a.len() + b.len(),
{
    if a.len() < b.len() {
        lemma_be_val_bound(a);
        lemma_be_val_lower(b);
        lemma_pow256_mono(a.len(), (b.len() - 1) as nat);
        assert(false);
    } else if b.len() < a.len() {
        lemma_be_val_bound(b);
        lemma_be_val_lower(a);
        lemma_pow256_mono(b.len(), (a.len() - 1) as nat);
        assert(false);
    } else if a.len() == 0 {
        assert(a =~= b);
    } else {
        let x = be_val(a.drop_last());
        let y = be_val(b.drop_last());
        assert(x == y && a.last() == b.last()) by (nonlinear_arith)
            requires
                x * 256 + a.last() == y * 256 + b.last(),
                a.last() < 256,
                b.last() < 256,
        ;
        if a.len() == 1 {
            assert(a.drop_last() =~= b.drop_last());
        } else {
            assert(a.drop_last()[0] == a[0]);
            assert(b.drop_last()[0] == b[0]);
            lemma_canonical_unique(a.drop_last(), b.drop_last());
        }
        assert(a =~= a.drop_last().push(a.last()));
        assert(b =~= b.drop_last().push(b.last()));
    }
}

impl BigVal {
    /// Canonical form: no leading zero byte, so equal values have
    /// equal byte strings.
    pub open spec fn wf(self) -> bool {
        self.bytes@.len() == 0 || self.bytes@[0] != 0
    }

    pub open spec fn val(self) -> nat {
        be_val(self.bytes@)
    }

    /// Builds the canonical value denoted by an arbitrary big-endian
    /// byte string, stripping leading zero bytes.
    pub fn from_be(bytes: &[u8]) -> (r: BigVal)
        ensures
            r.wf(),
            r.val() == be_val(bytes@),
    {
        let n = bytes.len();
        let mut i: usize = 0;
        while i < n && bytes[i] == 0
            invariant
                0 <= i <= n,
                n == bytes@.len(),
                forall|j: int| 0 <= j < i ==> bytes@[j] == 0,
            decreases n - i,
        {
            i += 1;
        }
        let mut out: Vec<u8> = Vec::new();
        let mut j: usize = i;
        while j < n
            invariant
                i <= j <= n,
                n == bytes@.len(),
                out@ =~= bytes@.subrange(i as int, j as int),
            decreases n - j,
        {
            out.push(bytes[j]);
            j += 1;
        }
        proof {
            assert(out@ =~= bytes@.skip(i as int));
            lemma_be_val_skip_zeros(bytes@, i as int);
        }
        BigVal { bytes: out }
    }

    /// The value as a machine position, where it fits: returns the
    /// value when it is at most `usize::MAX`, and nothing otherwise.
    pub fn to_position(&self) -> (r: Option<usize>)
        ensures
            match r {
                Some(v) => v == self.val() && self.val() <= usize::MAX,
                None => self.val() > usize::MAX,
            },
    {
        let n = self.bytes.len();
        let mut acc: usize = 0;
        let mut k: usize = 0;
        while k < n
            invariant
                0 <= k <= n,
                n == self.bytes@.len(),
                acc == be_val(self.bytes@.take(k as int)),
            decreases n - k,
        {
            let b = self.bytes[k];
            proof {
                assert(self.bytes@.take(k + 1).drop_last() =~= self.bytes@.take(k as int));
                assert(self.bytes@.take(k + 1).last() == self.bytes@[k as int]);
            }
            if acc > (usize::MAX - b as usize) / 256 {
                proof {
                    let taken = self.bytes@.take(k + 1);
                    assert(be_val(taken) == acc * 256 + b);
                    assert(acc * 256 + b > usize::MAX) by (nonlinear_arith)
                        requires
                            acc > (usize::MAX - b as usize) / 256,
                            b < 256,
                    ;
                    lemma_be_val_split(self.bytes@, k + 1);
                    lemma_pow256_pos((self.bytes@.len() - k - 1) as nat);
                    assert(be_val(taken) * pow256((self.bytes@.len() - k - 1) as nat) >= be_val(
                        taken,
                    )) by (nonlinear_arith)
                        requires
                            pow256((self.bytes@.len() - k - 1) as nat) >= 1,
                    ;
                }
                return None;
            }
            proof {
                assert(acc * 256 + b <= usize::MAX) by (nonlinear_arith)
                    requires
                        acc <= (usize::MAX - b as usize) / 256,
                        b < 256,
                ;
            }
            acc = acc * 256 + b as usize;
            k += 1;
        }
        proof {
            assert(self.bytes@.take(n as int) =~= self.bytes@);
        }
        Some(acc)
    }

    /// Value equality; for canonical values this is byte equality.
    pub fn eq_val(&self, other: &BigVal) -> (r: bool)
        requires
            self.wf(),
            other.wf(),
        ensures
            r == (self.val() == other.val()),
    {
        proof {
            if self.val() == other.val() {
                lemma_canonical_unique(self.bytes@, other.bytes@);
            }
        }
        bytes_eq(&self.bytes, &other.bytes)
    }
}

/// Byte-vector copy.
pub fn bytes_clone(a: &Vec<u8>) -> (r: Vec<u8>)
    ensures
        r@ == a@,
{
    let n = a.len();
    let mut r: Vec<u8> = Vec::new();
    let mut i: usize = 0;
    while i < n
        invariant
            0 <= i <= n,
            n == a@.len(),
            r@ =~= a@.subrange(0, i as int),
        decreases n - i,
    {
        r.push(a[i]);
        i += 1;
    }
    proof {
        assert(r@ =~= a@);
    }
    r
}

/// Byte-vector equality.
fn bytes_eq(a: &Vec<u8>, b: &Vec<u8>) -> (r: bool)
    ensures
        r == (a@ == b@),
{
    if a.len() != b.len() {
        return false;
    }
    let n = a.len();
    let mut i: usize = 0;
    while i < n
        invariant
            0 <= i <= n,
            n == a@.len() == b@.len(),
            forall|j: int| 0 <= j < i ==> a@[j] == b@[j],
        decreases n - i,
    {
        if a[i] != b[i] {
            return false;
        }
        i += 1;
    }
    proof {
        assert(a@ =~= b@);
    }
    true
}

/// The symbolic expression tree.  `Constant` is a literal (for example
/// from a push immediate), `Operation` is the symbolic result of an
/// instruction applied to its symbolic operands (children in stack-pop
/// order), and `Query` is a named free variable used only inside
/// caller-constructed search patterns.
pub enum OpTree {
    Constant(BigVal),
    Operation(u8, Vec<OpTree>),
    Query(String),
}

/// Mathematical model of an expression tree: constants by numeric
/// value, children as a sequence, query names as character sequences.
pub ghost enum OpTreeV {
    Constant(nat),
    Operation(u8, Seq<OpTreeV>),
    Query(Seq<char>),
}

/// Model of an expression tree.
pub open spec fn tree_view(t: OpTree) -> OpTreeV
    decreases t,
{
    match t {
        OpTree::Constant(v) => OpTreeV::Constant(v.val()),
        OpTree::Operation(op, children) => OpTreeV::Operation(
            op,
            Seq::new(
                children@.len(),
                |i: int|
                    if 0 <= i < children@.len() {
                        tree_view(children@[i])
                    } else {
                        OpTreeV::Constant(0)
                    },
            ),
        ),
        OpTree::Query(name) => OpTreeV::Query(name@),
    }
}

/// Model of a sequence of expression trees.
pub open spec fn trees_view(ts: Seq<OpTree>) -> Seq<OpTreeV> {
    Seq::new(
        ts.len(),
        |i: int|
            if 0 <= i < ts.len() {
                tree_view(ts[i])
            } else {
                OpTreeV::Constant(0)
            },
    )
}

/// Well-formedness: every constant in the tree is canonical.
pub open spec fn tree_wf(t: OpTree) -> bool
    decreases t,
{
    match t {
        OpTree::Constant(v) => v.wf(),
        OpTree::Operation(_, children) => forall|i: int|
            0 <= i < children@.len() ==> tree_wf(#[trigger] children@[i]),
        OpTree::Query(_) => true,
    }
}

impl OpTree {
    /// A constant leaf from a big-endian byte string.
    pub fn constant(bytes: &[u8]) -> (r: OpTree)
        ensures
            tree_wf(r),
            tree_view(r) == OpTreeV::Constant(be_val(bytes@)),
    {
        OpTree::Constant(BigVal::from_be(bytes))
    }

    /// An operation node over child operand trees.
    pub fn operation(op: u8, children: Vec<OpTree>) -> (r: OpTree)
        requires
            forall|i: int| 0 <= i < children@.len() ==> tree_wf(#[trigger] children@[i]),
        ensures
            tree_wf(r),
            tree_view(r) == OpTreeV::Operation(op, trees_view(children@)),
    {
        let r = OpTree::Operation(op, children);
        proof {
            assert(tree_view(r)->Operation_1 =~= trees_view(r->Operation_1@));
        }
        r
    }

    /// A named free variable for use in search patterns.
    pub fn query(name: String) -> (r: OpTree)
        ensures
            tree_wf(r),
            tree_view(r) == OpTreeV::Query(name@),
    {
        OpTree::Query(name)
    }
}

/// A deep copy of an expression tree: same model, same canonical
/// representation.
pub fn tree_clone(t: &OpTree) -> (r: OpTree)
    ensures
        tree_view(r) == tree_view(*t),
        tree_wf(*t) ==> tree_wf(r),
    decreases *t,
{
    match t {
        OpTree::Constant(v) => OpTree::Constant(BigVal { bytes: bytes_clone(&v.bytes) }),
        OpTree::Query(name) => OpTree::Query(name.clone()),
        OpTree::Operation(op, children) => {
            let n = children.len();
            let mut cs: Vec<OpTree> = Vec::new();
            let mut i: usize = 0;
            while i < n
                invariant
                    0 <= i <= n,
                    n == children@.len(),
                    t is Operation,
                    children == t->Operation_1,
                    cs@.len() == i,
                    forall|j: int|
                        0 <= j < i ==> tree_view(#[trigger] cs@[j]) == tree_view(children@[j]),
                    forall|j: int|
                        0 <= j < i ==> (tree_wf(children@[j]) ==> tree_wf(#[trigger] cs@[j])),
                decreases n - i,
            {
                let c = tree_clone(&children[i]);
                cs.push(c);
                i += 1;
            }
            let r = OpTree::Operation(*op, cs);
            proof {
                assert(tree_view(r)->Operation_1 =~= tree_view(*t)->Operation_1);
                if tree_wf(*t) {
                    assert(forall|j: int|
                        0 <= j < n ==> tree_wf(#[trigger] r->Operation_1@[j]));
                }
            }
            r
        },
    }
}

/// A deep copy of a sequence of expression trees.
pub fn trees_clone(ts: &Vec<OpTree>) -> (r: Vec<OpTree>)
    ensures
        trees_view(r@) == trees_view(ts@),
        (forall|i: int| 0 <= i < ts@.len() ==> tree_wf(#[trigger] ts@[i])) ==> (forall|i: int|
            0 <= i < r@.len() ==> tree_wf(#[trigger] r@[i])),
{
    let n = ts.len();
    let mut r: Vec<OpTree> = Vec::new();
    let mut i: usize = 0;
    while i < n
        invariant
            0 <= i <= n,
            n == ts@.len(),
            r@.len() == i,
            forall|j: int| 0 <= j < i ==> tree_view(#[trigger] r@[j]) == tree_view(ts@[j]),
            forall|j: int| 0 <= j < i ==> (tree_wf(ts@[j]) ==> tree_wf(#[trigger] r@[j])),
        decreases n - i,
    {
        let c = tree_clone(&ts[i]);
        r.push(c);
        i += 1;
    }
    proof {
        assert(trees_view(r@) =~= trees_view(ts@));
    }
    r
}

/// Structural equality of two well-formed expression trees; equal
/// models coincide with equal canonical representations.
pub fn tree_eq(a: &OpTree, b: &OpTree) -> (r: bool)
    requires
        tree_wf(*a),
        tree_wf(*b),
    ensures
        r == (tree_view(*a) == tree_view(*b)),
    decreases *a,
{
    match (a, b) {
        (OpTree::Constant(x), OpTree::Constant(y)) => x.eq_val(y),
        (OpTree::Query(n), OpTree::Query(m)) => n.eq(m),
        (OpTree::Operation(op1, c1), OpTree::Operation(op2, c2)) => {
            if *op1 != *op2 || c1.len() != c2.len() {
                proof {
                    if tree_view(*a) == tree_view(*b) {
                        assert(tree_view(*a)->Operation_1.len() == c1@.len());
                        assert(tree_view(*b)->Operation_1.len() == c2@.len());
                    }
                }
                false
            } else {
                let n = c1.len();
                let mut i: usize = 0;
                while i < n
                    invariant
                        0 <= i <= n,
                        n == c1@.len() == c2@.len(),
                        tree_wf(*a),
                        tree_wf(*b),
                        a is Operation && b is Operation,
                        c1 == a->Operation_1,
                        c2 == b->Operation_1,
                        forall|j: int| 0 <= j < i ==> tree_view(c1@[j]) == tree_view(c2@[j]),
                    decreases n - i,
                {
                    proof {
                        assert(tree_wf(c1@[i as int]));
                        assert(tree_wf(c2@[i as int]));
                    }
                    let e = tree_eq(&c1[i], &c2[i]);
                    if !e {
                        proof {
                            let va = tree_view(*a)->Operation_1;
                            let vb = tree_view(*b)->Operation_1;
                            assert(va[i as int] == tree_view(c1@[i as int]));
                            assert(vb[i as int] == tree_view(c2@[i as int]));
                            if tree_view(*a) == tree_view(*b) {
                                assert(va == vb);
                                assert(false);
                            }
                        }
                        return false;
                    }
                    i += 1;
                }
                proof {
                    let va = tree_view(*a)->Operation_1;
                    let vb = tree_view(*b)->Operation_1;
                    assert(va =~= vb);
                }
                true
            }
        },
        _ => {
            proof {
                assert(tree_view(*a) != tree_view(*b));
            }
            false
        },
    }
}

} // verus!
