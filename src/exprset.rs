use vstd::prelude::*;
use crate::expr::{
    lemma_encode_valid, lemma_encoding_injective, lemma_flag_constants, lemma_unpack, ref_words,
    tag_num, valid_words, word_flags, word_tag, Expr, ExprFlags, ExprRef, ExprTag,
};
use crate::hashcons::VecHashCons;

verus! {

/// The children named by a stored node.
pub open spec fn word_children(s: Seq<u32>) -> Seq<u32> {
    let t = word_tag(s[0]);
    if 6 <= t <= 8 {
        seq![s[1]]
    } else if 9 <= t <= 11 {
        s.subrange(1, s.len() as int)
    } else {
        Seq::empty()
    }
}

/// A node's children, read from its words, are the children it was built with.
pub proof fn lemma_children(e: &Expr)
    requires
        e.wf(),
    ensures
        word_children(e.encode()) == ref_words(e.args_spec()),
{
    lemma_encode_valid(e);
    let s = e.encode();
    match e {
        Expr::Concat(_, es) | Expr::Or(_, es) | Expr::And(_, es) => {
            assert(s.subrange(1, s.len() as int) =~= ref_words(es@));
        },
        Expr::Lookahead(_, _, _) | Expr::Not(_, _) | Expr::Repeat(_, _, _, _) => {
            assert(word_children(s) =~= ref_words(e.args_spec()));
        },
        _ => {
            assert(word_children(s) =~= ref_words(e.args_spec()));
        },
    }
}

/// The fixed length of a lookahead of the empty string stored as `s`.
pub open spec fn empty_lookahead_len(s: Seq<u32>) -> Option<int> {
    if word_tag(s[0]) == 6 && s[1] == 1 {
        Some(s[2] as int)
    } else {
        None
    }
}

/// The length of a lookahead stored as `s`, or 0.
pub open spec fn any_lookahead_len(s: Seq<u32>) -> int {
    if word_tag(s[0]) == 6 {
        s[2] as int
    } else {
        0
    }
}

pub open spec fn min_opt(a: Option<int>, b: Option<int>) -> Option<int> {
    match (a, b) {
        (Some(x), Some(y)) => Some(if x <= y { x } else { y }),
        (Some(x), None) => Some(x),
        (None, _) => b,
    }
}

/// Whether `s` stores the one-byte literal `b`.
pub open spec fn is_byte_node(s: Seq<u32>, b: u8) -> bool {
    word_tag(s[0]) == 3 && s[1] == b as u32
}

/// Owner of an expression graph: the canonical store plus its configuration.
pub struct ExprSet {
    exprs: VecHashCons,
    alphabet_size: usize,
    alphabet_words: usize,
    digits: [u8; 10],
    cost: u64,
    optimize: bool,
}

impl ExprSet {
    /// The stored word sequence of each identifier.
    pub closed spec fn view(&self) -> Seq<Seq<u32>> {
        self.exprs@
    }

    pub closed spec fn cost_spec(&self) -> u64 {
        self.cost
    }

    pub closed spec fn num_bytes_spec(&self) -> usize {
        self.exprs.bytes_spec()
    }

    pub closed spec fn alphabet_size_spec(&self) -> usize {
        self.alphabet_size
    }

    pub closed spec fn alphabet_words_spec(&self) -> usize {
        self.alphabet_words
    }

    /// Identifier 0 holds no node, identifiers 1 to 5 hold the reserved
    /// nodes, and every entry past 0 is a valid node whose children were
    /// stored before it.
    pub closed spec fn wf(&self) -> bool {
        &&& self.store_wf()
        &&& self.exprs@.len() >= 6
        &&& reserved_nodes(self.exprs@, self.alphabet_words)
    }

    pub closed spec fn optimize_spec(&self) -> bool {
        self.optimize
    }

    /// Identifier 0 holds no node; every other entry is a valid node whose
    /// children were stored before it.
    closed spec fn store_wf(&self) -> bool {
        &&& self.exprs.wf()
        &&& self.exprs@.len() >= 1
        &&& self.exprs@[0] == Seq::<u32>::empty()
        &&& self.alphabet_words == (self.alphabet_size + 31) / 32
        &&& forall|i: int|
            1 <= i < self.exprs@.len() ==> valid_words(#[trigger] self.exprs@[i]) && forall|
                j: int,
            |
                0 <= j < word_children(self.exprs@[i]).len() ==> #[trigger] word_children(
                    self.exprs@[i],
                )[j] < i
    }

    /// A handle to a node of this set.
    pub open spec fn valid_ref(&self, id: ExprRef) -> bool {
        0 < id.0 < self@.len()
    }

    /// The stored words of `id`.
    pub open spec fn words(&self, id: ExprRef) -> Seq<u32> {
        self@[id.0 as int]
    }

    pub open spec fn flags_at(&self, id: ExprRef) -> ExprFlags {
        ExprFlags(word_flags(self.words(id)[0]))
    }

    pub open spec fn nullable_at(&self, id: ExprRef) -> bool {
        self.flags_at(id).nullable_spec()
    }

    pub open spec fn positive_at(&self, id: ExprRef) -> bool {
        self.flags_at(id).positive_spec()
    }

    /// Every child of a node to be built is already a node here.
    pub open spec fn children_in(&self, e: &Expr) -> bool {
        forall|i: int| 0 <= i < e.args_spec().len() ==> self.valid_ref(#[trigger] e.args_spec()[i])
    }

    /// The children of a stored node have smaller identifiers.
    pub proof fn lemma_children_below(&self, id: ExprRef)
        requires
            self.wf(),
            self.valid_ref(id),
        ensures
            forall|j: int|
                0 <= j < word_children(self.words(id)).len() ==> #[trigger] word_children(
                    self.words(id),
                )[j] < id.0,
    {
        self.lemma_wf_entry(id.0 as int);
    }

    proof fn lemma_wf_entry(&self, i: int)
        requires
            self.store_wf(),
            1 <= i < self@.len(),
        ensures
            valid_words(self@[i]),
            forall|j: int| 0 <= j < word_children(self@[i]).len() ==> #[trigger] word_children(self@[i])[j] < i,
    {
        assert(valid_words(self.exprs@[i]));
    }

    /// Stores `e` and returns its identifier: the one an identical node
    /// already has, or a new one, whose words are charged to the cost.
    pub fn mk(&mut self, e: Expr) -> (r: ExprRef)
        requires
            old(self).wf(),
            old(self)@.len() < u32::MAX,
            e.wf(),
            old(self).children_in(&e),
        ensures
            final(self).wf(),
            final(self).valid_ref(r),
            final(self).words(r) == e.encode(),
            final(self).alphabet_size_spec() == old(self).alphabet_size_spec(),
            final(self).alphabet_words_spec() == old(self).alphabet_words_spec(),
            final(self).optimize_spec() == old(self).optimize_spec(),
            old(self)@.contains(e.encode()) ==> final(self)@ == old(self)@ && final(self).cost_spec()
                == old(self).cost_spec() && final(self).num_bytes_spec() == old(self).num_bytes_spec(),
            !old(self)@.contains(e.encode()) ==> final(self)@ == old(self)@.push(e.encode()) && r.0
                == old(self)@.len() && final(self).cost_spec() == saturating_cost(
                old(self).cost_spec(),
                e.encode().len() as int,
            ) && final(self).num_bytes_spec() == saturating_bytes(
                old(self).num_bytes_spec(),
                e.encode().len() as int,
            ),
            !old(self)@.contains(e.encode()) && old(self).cost_spec() < u64::MAX
                ==> final(self).cost_spec() > old(self).cost_spec(),
    {
        let r = self.mk_raw(e);
        assert(self.exprs@.len() >= 6);
        assert(reserved_nodes(self.exprs@, self.alphabet_words));
        r
    }

    fn mk_raw(&mut self, e: Expr) -> (r: ExprRef)
        requires
            old(self).store_wf(),
            old(self)@.len() < u32::MAX,
            e.wf(),
            old(self).children_in(&e),
        ensures
            final(self).store_wf(),
            final(self).valid_ref(r),
            final(self).words(r) == e.encode(),
            final(self).alphabet_size_spec() == old(self).alphabet_size_spec(),
            final(self).alphabet_words_spec() == old(self).alphabet_words_spec(),
            final(self).optimize_spec() == old(self).optimize_spec(),
            old(self)@.contains(e.encode()) ==> final(self)@ == old(self)@ && final(self).cost_spec()
                == old(self).cost_spec() && final(self).num_bytes_spec() == old(self).num_bytes_spec(),
            !old(self)@.contains(e.encode()) ==> final(self)@ == old(self)@.push(e.encode()) && r.0
                == old(self)@.len() && final(self).cost_spec() == saturating_cost(
                old(self).cost_spec(),
                e.encode().len() as int,
            ) && final(self).num_bytes_spec() == saturating_bytes(
                old(self).num_bytes_spec(),
                e.encode().len() as int,
            ),
            !old(self)@.contains(e.encode()) && old(self).cost_spec() < u64::MAX
                ==> final(self).cost_spec() > old(self).cost_spec(),
    {
        proof {
            lemma_encode_valid(&e);
            lemma_children(&e);
        }
        let words = e.serialize();
        let n = words.len();
        let before = self.exprs.len();
        let id = self.exprs.insert(words);
        if self.exprs.len() != before {
            self.cost = add_cost(self.cost, n);
        }
        proof {
            let s = e.encode();
            if old(self)@.contains(s) {
                assert(self.exprs@ == old(self).exprs@);
            } else {
                assert forall|i: int| 1 <= i < self.exprs@.len() implies valid_words(
                    #[trigger] self.exprs@[i],
                ) && forall|j: int|
                    0 <= j < word_children(self.exprs@[i]).len() ==> #[trigger] word_children(
                        self.exprs@[i],
                    )[j] < i by {
                    if i < old(self)@.len() {
                        assert(self.exprs@[i] == old(self).exprs@[i]);
                        old(self).lemma_wf_entry(i);
                    } else {
                        assert(self.exprs@[i] == s);
                        assert forall|j: int| 0 <= j < word_children(s).len() implies #[trigger] word_children(s)[j] < i by {
                            assert(word_children(s)[j] == e.args_spec()[j].0);
                            assert(old(self).valid_ref(e.args_spec()[j]));
                        }
                    }
                }
            }
            if id == 0 {
                assert(self.exprs@[0] == Seq::<u32>::empty());
            }
        }
        ExprRef(id)
    }

    /// A set over `alphabet_size` byte values holding the reserved nodes:
    /// 1 the empty string, 2 no match, 3 any byte, 4 any byte string,
    /// 5 any non-empty byte string.
    pub fn new(alphabet_size: usize) -> (r: ExprSet)
        requires
            alphabet_size <= usize::MAX - 31,
        ensures
            r.wf(),
            r@.len() == 6,
            r.alphabet_size_spec() == alphabet_size,
            r.alphabet_words_spec() == (alphabet_size + 31) / 32,
            r.cost_spec() == 0,
            r@[1] == Expr::EmptyString.encode(),
            r@[2] == Expr::NoMatch.encode(),
            r@[3] == any_byte_words(((alphabet_size + 31) / 32) as usize),
            r@[4] == Expr::Repeat(ExprFlags(0x300), ExprRef(3), 0, u32::MAX).encode(),
            r@[5] == Expr::Repeat(ExprFlags(0x200), ExprRef(3), 1, u32::MAX).encode(),
    {
        let alphabet_words = (alphabet_size + 31) / 32;
        let mut exprs = VecHashCons::new();
        let id0 = exprs.insert(Vec::new());
        let mut r = ExprSet {
            exprs,
            alphabet_size,
            alphabet_words,
            digits: [48u8, 49u8, 50u8, 51u8, 52u8, 53u8, 54u8, 55u8, 56u8, 57u8],
            cost: 0,
            optimize: true,
        };
        proof {
            lemma_flag_constants();
            assert(r@.len() == 1);
        }
        let e1 = Expr::EmptyString;
        let ghost s1 = e1.encode();
        proof {
            lemma_encode_valid(&e1);
            lemma_fresh(r@, s1);
        }
        let id1 = r.mk_raw(e1);
        let e2 = Expr::NoMatch;
        let ghost s2 = e2.encode();
        proof {
            lemma_encode_valid(&e2);
            lemma_fresh(r@, s2);
        }
        let id2 = r.mk_raw(e2);
        let all = vec![0xffffffffu32; alphabet_words];
        assert(all@ =~= Seq::new(alphabet_words as nat, |i: int| 0xffff_ffffu32));
        let e3 = Expr::ByteSet(all);
        let ghost s3 = e3.encode();
        assert(0x200u32 | 4u32 == 0x204u32) by (bit_vector);
        assert(s3 =~= any_byte_words(alphabet_words));
        proof {
            lemma_encode_valid(&e3);
            lemma_fresh(r@, s3);
        }
        let id3 = r.mk_raw(e3);
        let e4 = Expr::Repeat(ExprFlags::from_nullable_positive(true, true), ExprRef(3), 0, u32::MAX);
        let ghost s4 = e4.encode();
        proof {
            lemma_encode_valid(&e4);
            assert(e4.args_spec()[0] == ExprRef(3));
            lemma_fresh(r@, s4);
        }
        let id4 = r.mk_raw(e4);
        let e5 = Expr::Repeat(ExprFlags::from_nullable_positive(false, true), ExprRef(3), 1, u32::MAX);
        let ghost s5 = e5.encode();
        proof {
            lemma_encode_valid(&e5);
            assert(e5.args_spec()[0] == ExprRef(3));
            assert(r@[4][2] == 0);
            lemma_fresh(r@, s5);
        }
        let id5 = r.mk_raw(e5);
        r.cost = 0;
        assert(reserved_nodes(r.exprs@, r.alphabet_words));
        r
    }

    /// Flags of an n-ary node over `args`: `(all nullable, any nullable,
    /// all positive, any positive)`.
    fn nary_flags(&self, args: &Vec<ExprRef>) -> (r: (bool, bool, bool, bool))
        requires
            self.wf(),
            forall|j: int| 0 <= j < args@.len() ==> self.valid_ref(#[trigger] args@[j]),
        ensures
            r.0 == (forall|j: int| 0 <= j < args@.len() ==> self.nullable_at(#[trigger] args@[j])),
            r.1 == (exists|j: int| 0 <= j < args@.len() && self.nullable_at(#[trigger] args@[j])),
            r.2 == (forall|j: int| 0 <= j < args@.len() ==> self.positive_at(#[trigger] args@[j])),
            r.3 == (exists|j: int| 0 <= j < args@.len() && self.positive_at(#[trigger] args@[j])),
    {
        let mut all_n = true;
        let mut any_n = false;
        let mut all_p = true;
        let mut any_p = false;
        let mut i: usize = 0;
        while i < args.len()
            invariant
                self.wf(),
                forall|j: int| 0 <= j < args@.len() ==> self.valid_ref(#[trigger] args@[j]),
                i <= args@.len(),
                all_n == (forall|j: int| 0 <= j < i ==> self.nullable_at(#[trigger] args@[j])),
                any_n == (exists|j: int| 0 <= j < i && self.nullable_at(#[trigger] args@[j])),
                all_p == (forall|j: int| 0 <= j < i ==> self.positive_at(#[trigger] args@[j])),
                any_p == (exists|j: int| 0 <= j < i && self.positive_at(#[trigger] args@[j])),
            decreases args@.len() - i,
        {
            let n = self.is_nullable(args[i]);
            let p = self.is_positive(args[i]);
            all_n = all_n && n;
            any_n = any_n || n;
            all_p = all_p && p;
            any_p = any_p || p;
            i = i + 1;
        }
        (all_n, any_n, all_p, any_p)
    }

    /// The concatenation of `args`: nullable iff every child is, positive iff every child is.
    pub fn mk_concat(&mut self, args: Vec<ExprRef>) -> (r: ExprRef)
        requires
            old(self).wf(),
            old(self)@.len() < u32::MAX,
            forall|j: int| 0 <= j < args@.len() ==> old(self).valid_ref(#[trigger] args@[j]),
        ensures
            final(self).wf(),
            final(self).valid_ref(r),
            old(self)@.is_prefix_of(final(self)@),
            word_tag(final(self).words(r)[0]) == tag_num(ExprTag::Concat),
            word_children(final(self).words(r)) == ref_words(args@),
            final(self).nullable_at(r) == (forall|j: int|
                0 <= j < args@.len() ==> old(self).nullable_at(#[trigger] args@[j])),
            final(self).positive_at(r) == (forall|j: int|
                0 <= j < args@.len() ==> old(self).positive_at(#[trigger] args@[j])),
    {
        let f = self.nary_flags(&args);
        let flags = ExprFlags::from_nullable_positive(f.0, f.2);
        self.mk_nary(ExprTag::Concat, flags, args)
    }

    /// The alternation of `args`: nullable iff some child is, positive iff some child is.
    pub fn mk_or(&mut self, args: Vec<ExprRef>) -> (r: ExprRef)
        requires
            old(self).wf(),
            old(self)@.len() < u32::MAX,
            forall|j: int| 0 <= j < args@.len() ==> old(self).valid_ref(#[trigger] args@[j]),
        ensures
            final(self).wf(),
            final(self).valid_ref(r),
            old(self)@.is_prefix_of(final(self)@),
            word_tag(final(self).words(r)[0]) == tag_num(ExprTag::Or),
            word_children(final(self).words(r)) == ref_words(args@),
            final(self).nullable_at(r) == (exists|j: int|
                0 <= j < args@.len() && old(self).nullable_at(#[trigger] args@[j])),
            final(self).positive_at(r) == (exists|j: int|
                0 <= j < args@.len() && old(self).positive_at(#[trigger] args@[j])),
    {
        let f = self.nary_flags(&args);
        let flags = ExprFlags::from_nullable_positive(f.1, f.3);
        proof {
            if f.1 {
                let j = choose|j: int| 0 <= j < args@.len() && self.nullable_at(#[trigger] args@[j]);
                lemma_nullable_positive(self, args@[j]);
            }
        }
        self.mk_nary(ExprTag::Or, flags, args)
    }

    /// The conjunction of `args`: nullable iff every child is, positive only if every child is.
    pub fn mk_and(&mut self, args: Vec<ExprRef>) -> (r: ExprRef)
        requires
            old(self).wf(),
            old(self)@.len() < u32::MAX,
            forall|j: int| 0 <= j < args@.len() ==> old(self).valid_ref(#[trigger] args@[j]),
        ensures
            final(self).wf(),
            final(self).valid_ref(r),
            old(self)@.is_prefix_of(final(self)@),
            word_tag(final(self).words(r)[0]) == tag_num(ExprTag::And),
            word_children(final(self).words(r)) == ref_words(args@),
            final(self).nullable_at(r) == (forall|j: int|
                0 <= j < args@.len() ==> old(self).nullable_at(#[trigger] args@[j])),
            final(self).positive_at(r) == (forall|j: int|
                0 <= j < args@.len() ==> old(self).positive_at(#[trigger] args@[j])),
    {
        let f = self.nary_flags(&args);
        let flags = ExprFlags::from_nullable_positive(f.0, f.2);
        self.mk_nary(ExprTag::And, flags, args)
    }

    fn mk_nary(&mut self, tag: ExprTag, flags: ExprFlags, args: Vec<ExprRef>) -> (r: ExprRef)
        requires
            old(self).wf(),
            old(self)@.len() < u32::MAX,
            flags.wf(),
            flags.nullable_spec() ==> flags.positive_spec(),
            tag == ExprTag::Concat || tag == ExprTag::Or || tag == ExprTag::And,
            forall|j: int| 0 <= j < args@.len() ==> old(self).valid_ref(#[trigger] args@[j]),
        ensures
            final(self).wf(),
            final(self).valid_ref(r),
            old(self)@.is_prefix_of(final(self)@),
            word_tag(final(self).words(r)[0]) == tag_num(tag),
            word_children(final(self).words(r)) == ref_words(args@),
            final(self).flags_at(r) == flags,
    {
        let ghost a = args@;
        let e = match tag {
            ExprTag::Concat => Expr::Concat(flags, args),
            ExprTag::Or => Expr::Or(flags, args),
            _ => Expr::And(flags, args),
        };
        proof {
            assert(e.args_spec() == a);
            assert forall|j: int| 0 <= j < e.args_spec().len() implies #[trigger] e.args_spec()[j].0 != 0 by {
                assert(old(self).valid_ref(a[j]));
            }
            lemma_encode_valid(&e);
            lemma_children(&e);
        }
        let r = self.mk(e);
        proof {
            assert(old(self)@.is_prefix_of(self@));
        }
        r
    }

    /// The node stored under `id`.
    pub fn get(&self, id: ExprRef) -> (r: Expr)
        requires
            self.wf(),
            self.valid_ref(id),
        ensures
            r.wf(),
            r.encode() == self.words(id),
            forall|j: int| 0 <= j < r.args_spec().len() ==> 0 < #[trigger] r.args_spec()[j].0 < id.0,
    {
        proof {
            self.lemma_wf_entry(id.0 as int);
        }
        let r = Expr::from_slice(self.exprs.get(id.0));
        proof {
            lemma_children(&r);
            assert forall|j: int| 0 <= j < r.args_spec().len() implies 0 < #[trigger] r.args_spec()[j].0 < id.0 by {
                assert(ref_words(r.args_spec())[j] == r.args_spec()[j].0);
            }
        }
        r
    }

    pub fn is_valid(&self, id: ExprRef) -> (r: bool)
        ensures
            r == self.valid_ref(id),
    {
        id.is_valid() && self.exprs.is_valid(id.0)
    }

    pub fn get_flags(&self, id: ExprRef) -> (r: ExprFlags)
        requires
            self.wf(),
            self.valid_ref(id),
        ensures
            r == self.flags_at(id),
    {
        ExprFlags(self.exprs.get(id.0)[0] & !0xffu32)
    }

    pub fn get_tag(&self, id: ExprRef) -> (r: ExprTag)
        requires
            self.wf(),
            self.valid_ref(id),
        ensures
            tag_num(r) == word_tag(self.words(id)[0]),
    {
        proof {
            self.lemma_wf_entry(id.0 as int);
            lemma_unpack(self.words(id)[0]);
        }
        let tag = self.exprs.get(id.0)[0] & 0xffu32;
        ExprTag::from_u8(tag as u8)
    }

    /// The children of `id`: the list of an n-ary node, the one child of a unary node, or none.
    pub fn get_args(&self, id: ExprRef) -> (r: Vec<ExprRef>)
        requires
            self.wf(),
            self.valid_ref(id),
        ensures
            ref_words(r@) == word_children(self.words(id)),
            forall|j: int| 0 <= j < r@.len() ==> self.valid_ref(#[trigger] r@[j]),
    {
        let e = self.get(id);
        proof {
            lemma_children(&e);
            assert forall|j: int| 0 <= j < e.args_spec().len() implies self.valid_ref(#[trigger] e.args_spec()[j]) by {
                assert(0 < e.args_spec()[j].0 < id.0);
            }
        }
        e.args()
    }

    pub fn is_nullable(&self, id: ExprRef) -> (r: bool)
        requires
            self.wf(),
            self.valid_ref(id),
        ensures
            r == self.nullable_at(id),
    {
        self.get_flags(id).is_nullable()
    }

    pub fn is_positive(&self, id: ExprRef) -> (r: bool)
        requires
            self.wf(),
            self.valid_ref(id),
        ensures
            r == self.positive_at(id),
    {
        self.get_flags(id).is_positive()
    }

    /// True only when every string the node matches starts with `bytes`:
    /// for an empty probe, for the literal byte itself, or for a
    /// concatenation whose leading children are exactly those literals.
    pub open spec fn forced_spec(&self, e: ExprRef, bytes: Seq<u8>) -> bool {
        let s = self.words(e);
        if bytes.len() == 0 {
            true
        } else if word_tag(s[0]) == 3 {
            bytes.len() == 1 && s[1] == bytes[0] as u32
        } else if word_tag(s[0]) == 9 && s.len() - 1 >= bytes.len() {
            forall|i: int| 0 <= i < bytes.len() ==> is_byte_node(#[trigger] self@[s[i + 1] as int], bytes[i])
        } else {
            false
        }
    }

    pub fn has_simply_forced_bytes(&self, e: ExprRef, bytes: &[u8]) -> (r: bool)
        requires
            self.wf(),
            self.valid_ref(e),
        ensures
            r == self.forced_spec(e, bytes@),
    {
        if bytes.len() == 0 {
            return true;
        }
        let node = self.get(e);
        proof {
            lemma_encode_valid(&node);
        }
        match node {
            Expr::Byte(b) => bytes.len() == 1 && bytes[0] == b,
            Expr::Concat(_, refs) => {
                if refs.len() < bytes.len() {
                    assert(node.encode().len() == refs@.len() + 1);
                    return false;
                }
                let ghost s = self.words(e);
                assert(node.args_spec() == refs@);
                assert forall|j: int| 0 <= j < refs@.len() implies 0 < #[trigger] refs@[j].0 < e.0 by {
                    assert(0 < node.args_spec()[j].0 < e.0);
                }
                let mut i: usize = 0;
                while i < bytes.len()
                    invariant
                        self.wf(),
                        self.valid_ref(e),
                        s == self.words(e),
                        s == node.encode(),
                        word_tag(s[0]) == 9,
                        s.len() == refs@.len() + 1,
                        node == Expr::Concat(node.flags_spec(), refs),
                        node.wf(),
                        bytes@.len() <= refs@.len(),
                        forall|j: int| 0 <= j < refs@.len() ==> 0 < #[trigger] refs@[j].0 < e.0,
                        i <= bytes@.len(),
                        forall|j: int| 0 <= j < i ==> is_byte_node(#[trigger] self@[s[j + 1] as int], bytes@[j]),
                    decreases bytes@.len() - i,
                {
                    assert(s[i + 1] == ref_words(refs@)[i as int]);
                    assert(node.args_spec()[i as int] == refs@[i as int]);
                    let child = self.get(refs[i]);
                    proof {
                        lemma_encode_valid(&child);
                    }
                    assert(self@[s[i + 1] as int] == child.encode());
                    match child {
                        Expr::Byte(b2) => {
                            if b2 != bytes[i] {
                                assert(!is_byte_node(self@[s[i + 1] as int], bytes@[i as int]));
                                return false;
                            }
                        },
                        _ => {
                            assert(!is_byte_node(self@[s[i + 1] as int], bytes@[i as int]));
                            return false;
                        },
                    }
                    i = i + 1;
                }
                true
            },
            _ => false,
        }
    }

    /// The length of a lookahead of the empty string at `e`, if it is one.
    fn lookahead_len_inner(&self, e: ExprRef) -> (r: Option<usize>)
        requires
            self.wf(),
            self.valid_ref(e),
        ensures
            opt_int(r) == empty_lookahead_len(self.words(e)),
    {
        let node = self.get(e);
        proof {
            lemma_encode_valid(&node);
        }
        match node {
            Expr::Lookahead(_, inner, n) => {
                if inner.0 == 1 {
                    Some(n as usize)
                } else {
                    None
                }
            },
            _ => None,
        }
    }

    /// Lookahead length guaranteed at `e`: the least over the lookahead
    /// branches of an alternation, or that of `e` itself.
    pub open spec fn lookahead_len_spec(&self, e: ExprRef) -> Option<int> {
        let s = self.words(e);
        if word_tag(s[0]) == 10 {
            self.min_lookahead(word_children(s))
        } else {
            empty_lookahead_len(s)
        }
    }

    pub open spec fn min_lookahead(&self, cs: Seq<u32>) -> Option<int>
        decreases cs.len(),
    {
        if cs.len() == 0 {
            None
        } else {
            min_opt(self.min_lookahead(cs.drop_last()), empty_lookahead_len(self@[cs.last() as int]))
        }
    }

    pub fn lookahead_len(&self, e: ExprRef) -> (r: Option<usize>)
        requires
            self.wf(),
            self.valid_ref(e),
        ensures
            opt_int(r) == self.lookahead_len_spec(e),
    {
        let tag = self.get_tag(e);
        match tag {
            ExprTag::Or => {
                let args = self.get_args(e);
                let ghost cs = word_children(self.words(e));
                let mut best: Option<usize> = None;
                let mut i: usize = 0;
                while i < args.len()
                    invariant
                        self.wf(),
                        ref_words(args@) == cs,
                        forall|j: int| 0 <= j < args@.len() ==> self.valid_ref(#[trigger] args@[j]),
                        i <= args@.len(),
                        opt_int(best) == self.min_lookahead(cs.subrange(0, i as int)),
                    decreases args@.len() - i,
                {
                    let here = self.lookahead_len_inner(args[i]);
                    assert(cs[i as int] == args@[i as int].0);
                    assert(cs.subrange(0, i + 1).drop_last() =~= cs.subrange(0, i as int));
                    best = match (best, here) {
                        (Some(x), Some(y)) => Some(if x <= y { x } else { y }),
                        (Some(x), None) => Some(x),
                        (None, _) => here,
                    };
                    i = i + 1;
                }
                assert(cs.subrange(0, args@.len() as int) =~= cs);
                best
            },
            _ => self.lookahead_len_inner(e),
        }
    }

    /// The length of any lookahead at `e`, or 0.
    fn possible_lookahead_len_inner(&self, e: ExprRef) -> (r: usize)
        requires
            self.wf(),
            self.valid_ref(e),
        ensures
            r == any_lookahead_len(self.words(e)),
    {
        let node = self.get(e);
        proof {
            lemma_encode_valid(&node);
        }
        match node {
            Expr::Lookahead(_, _, n) => n as usize,
            _ => 0,
        }
    }

    /// Lookahead length possible at `e`: the greatest over the branches of
    /// an alternation, or that of `e` itself; 0 where there is none.
    pub open spec fn possible_lookahead_len_spec(&self, e: ExprRef) -> int {
        let s = self.words(e);
        if word_tag(s[0]) == 10 {
            self.max_lookahead(word_children(s))
        } else {
            any_lookahead_len(s)
        }
    }

    pub open spec fn max_lookahead(&self, cs: Seq<u32>) -> int
        decreases cs.len(),
    {
        if cs.len() == 0 {
            0
        } else {
            let a = self.max_lookahead(cs.drop_last());
            let b = any_lookahead_len(self@[cs.last() as int]);
            if a >= b {
                a
            } else {
                b
            }
        }
    }

    pub fn possible_lookahead_len(&self, e: ExprRef) -> (r: usize)
        requires
            self.wf(),
            self.valid_ref(e),
        ensures
            r == self.possible_lookahead_len_spec(e),
    {
        let tag = self.get_tag(e);
        match tag {
            ExprTag::Or => {
                let args = self.get_args(e);
                let ghost cs = word_children(self.words(e));
                let mut best: usize = 0;
                let mut i: usize = 0;
                while i < args.len()
                    invariant
                        self.wf(),
                        ref_words(args@) == cs,
                        forall|j: int| 0 <= j < args@.len() ==> self.valid_ref(#[trigger] args@[j]),
                        i <= args@.len(),
                        best == self.max_lookahead(cs.subrange(0, i as int)),
                    decreases args@.len() - i,
                {
                    let here = self.possible_lookahead_len_inner(args[i]);
                    assert(cs[i as int] == args@[i as int].0);
                    assert(cs.subrange(0, i + 1).drop_last() =~= cs.subrange(0, i as int));
                    if here > best {
                        best = here;
                    }
                    i = i + 1;
                }
                assert(cs.subrange(0, args@.len() as int) =~= cs);
                best
            },
            _ => self.possible_lookahead_len_inner(e),
        }
    }

    pub fn cost(&self) -> (r: u64)
        ensures
            r == self.cost_spec(),
    {
        self.cost
    }

    pub fn alphabet_size(&self) -> (r: usize)
        ensures
            r == self.alphabet_size_spec(),
    {
        self.alphabet_size
    }

    pub fn alphabet_words(&self) -> (r: usize)
        ensures
            r == self.alphabet_words_spec(),
    {
        self.alphabet_words
    }

    /// Number of identifiers in use, the reserved 0 included.
    pub fn len(&self) -> (r: usize)
        ensures
            r == self@.len(),
    {
        self.exprs.len()
    }

    /// Bytes taken by the stored nodes.
    pub fn num_bytes(&self) -> (r: usize)
        ensures
            r == self.num_bytes_spec(),
    {
        self.exprs.num_bytes()
    }

    pub fn disable_optimizations(&mut self)
        ensures
            final(self)@ == old(self)@,
            final(self).cost_spec() == old(self).cost_spec(),
            final(self).wf() == old(self).wf(),
            !final(self).optimize_spec(),
    {
        self.optimize = false;
    }
}

/// Two nodes of a set have the same identifier exactly when they were
/// built from the same variant, flags and fields.
pub proof fn lemma_canonical(s: &ExprSet, a: ExprRef, b: ExprRef, e1: &Expr, e2: &Expr)
    requires
        s.wf(),
        s.valid_ref(a),
        s.valid_ref(b),
        e1.wf(),
        e2.wf(),
        s.words(a) == e1.encode(),
        s.words(b) == e2.encode(),
    ensures
        (a == b) == e1.same_node(e2),
{
    if a == b {
        lemma_encoding_injective(e1, e2);
    }
    if e1.same_node(e2) {
        assert(e1.encode() == e2.encode());
        s.exprs.lemma_distinct(a.0 as int, b.0 as int);
    }
}

/// In every well-formed set, whatever was built since `new`, identifiers 1
/// to 5 are valid and hold the reserved nodes, and 0 is never valid.
pub proof fn lemma_reserved_stable(s: &ExprSet)
    requires
        s.wf(),
    ensures
        !s.valid_ref(ExprRef(0)),
        forall|k: u32| 1 <= k <= 5 ==> #[trigger] s.valid_ref(ExprRef(k)),
        reserved_nodes(s@, s.alphabet_words_spec()),
{
}

/// The empty string and a remainder constraint with remainder 0 are
/// nullable and positive; the empty language is neither.
pub proof fn lemma_leaf_flags(d: u32)
    ensures
        Expr::EmptyString.flags_spec().nullable_spec(),
        Expr::EmptyString.flags_spec().positive_spec(),
        Expr::RemainderIs(d, 0).flags_spec().nullable_spec(),
        Expr::RemainderIs(d, 0).flags_spec().positive_spec(),
        !Expr::NoMatch.flags_spec().nullable_spec(),
        !Expr::NoMatch.flags_spec().positive_spec(),
{
    lemma_flag_constants();
}

/// The flags a set reports for a stored node are the ones the node was built with.
pub proof fn lemma_stored_flags(s: &ExprSet, id: ExprRef, e: &Expr)
    requires
        s.wf(),
        s.valid_ref(id),
        e.wf(),
        s.words(id) == e.encode(),
    ensures
        s.flags_at(id) == e.flags_spec(),
{
    lemma_encode_valid(e);
}

/// The empty probe is forced for every node.
pub proof fn lemma_empty_probe(s: &ExprSet, e: ExprRef)
    ensures
        s.forced_spec(e, Seq::empty()),
{
}

/// A one-byte probe is forced for a literal byte node exactly when it is that byte.
pub proof fn lemma_byte_probe(s: &ExprSet, e: ExprRef, b: u8, c: u8)
    requires
        s.words(e) == Expr::Byte(b).encode(),
    ensures
        s.forced_spec(e, seq![c]) == (b == c),
{
    lemma_flag_constants();
    lemma_encode_valid(&Expr::Byte(b));
}

/// Whatever is stored as nullable is also stored as positive.
proof fn lemma_nullable_positive(s: &ExprSet, id: ExprRef)
    requires
        s.wf(),
        s.valid_ref(id),
    ensures
        s.nullable_at(id) ==> s.positive_at(id),
{
    s.lemma_wf_entry(id.0 as int);
}

/// A sequence differing from every entry in length or in its first word is new.
proof fn lemma_fresh(v: Seq<Seq<u32>>, s: Seq<u32>)
    requires
        s.len() >= 1,
        forall|i: int|
            0 <= i < v.len() ==> v[i].len() != s.len() || word_tag(v[i][0]) != word_tag(s[0])
                || (v[i].len() >= 3 && v[i][2] != s[2]),
    ensures
        !v.contains(s),
{
    if v.contains(s) {
        let i = choose|i: int| 0 <= i < v.len() && v[i] == s;
        assert(v[i] == s);
    }
}

pub open spec fn opt_int(o: Option<usize>) -> Option<int> {
    match o {
        Some(x) => Some(x as int),
        None => None,
    }
}

/// The words of the any-byte node over `n` bitset words: every bit set.
pub open spec fn any_byte_words(n: usize) -> Seq<u32> {
    seq![0x204u32] + Seq::new(n as nat, |i: int| 0xffff_ffffu32)
}

/// Identifiers 1 to 5 hold the empty string, no match, any byte, any byte
/// string and any non-empty byte string.
pub open spec fn reserved_nodes(v: Seq<Seq<u32>>, alphabet_words: usize) -> bool {
    &&& v[1] == Expr::EmptyString.encode()
    &&& v[2] == Expr::NoMatch.encode()
    &&& v[3] == any_byte_words(alphabet_words)
    &&& v[4] == Expr::Repeat(ExprFlags(0x300), ExprRef(3), 0, u32::MAX).encode()
    &&& v[5] == Expr::Repeat(ExprFlags(0x200), ExprRef(3), 1, u32::MAX).encode()
}

/// The byte count after storing `n` more words, capped at the largest `usize`.
pub open spec fn saturating_bytes(b: usize, n: int) -> usize {
    if b + 4 * n <= usize::MAX {
        (b + 4 * n) as usize
    } else {
        usize::MAX
    }
}

/// The cost after charging `n` words, capped at the largest `u64`.
pub open spec fn saturating_cost(c: u64, n: int) -> u64 {
    if c + n <= u64::MAX {
        (c + n) as u64
    } else {
        u64::MAX
    }
}

fn add_cost(c: u64, n: usize) -> (r: u64)
    ensures
        r == saturating_cost(c, n as int),
{
    if n as u128 <= (u64::MAX - c) as u128 {
        c + n as u64
    } else {
        u64::MAX
    }
}

} // verus!
