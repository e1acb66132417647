use vstd::prelude::*;
use crate::byteset::{bs_capacity, bs_has, byteset_contains};

verus! {

/// Handle of a node in an expression set; `0` is never a node.
#[derive(Clone, Copy, Debug, PartialEq, Eq, Structural, Hash, PartialOrd, Ord)]
pub struct ExprRef(pub u32);

impl ExprRef {
    /// The reserved invalid handle.
    pub fn invalid() -> (r: ExprRef)
        ensures
            r.0 == 0,
    {
        ExprRef(0)
    }

    /// The node that matches only the empty input.
    pub fn empty_string() -> (r: ExprRef)
        ensures
            r.0 == 1,
    {
        ExprRef(1)
    }

    /// The node that matches nothing.
    pub fn no_match() -> (r: ExprRef)
        ensures
            r.0 == 2,
    {
        ExprRef(2)
    }

    /// The node that matches any one byte.
    pub fn any_byte() -> (r: ExprRef)
        ensures
            r.0 == 3,
    {
        ExprRef(3)
    }

    /// The node that matches any byte string.
    pub fn any_byte_string() -> (r: ExprRef)
        ensures
            r.0 == 4,
    {
        ExprRef(4)
    }

    /// The node that matches any non-empty byte string.
    pub fn non_empty_byte_string() -> (r: ExprRef)
        ensures
            r.0 == 5,
    {
        ExprRef(5)
    }

    pub fn new(id: u32) -> (r: ExprRef)
        requires
            id != 0,
        ensures
            r.0 == id,
    {
        ExprRef(id)
    }

    pub fn is_valid(&self) -> (r: bool)
        ensures
            r == (self.0 != 0),
    {
        self.0 != 0
    }

    pub fn as_usize(&self) -> (r: usize)
        ensures
            r == self.0,
    {
        self.0 as usize
    }

    pub fn as_u32(&self) -> (r: u32)
        ensures
            r == self.0,
    {
        self.0
    }
}

pub const NULLABLE_BIT: u32 = 0x100;

pub const POSITIVE_BIT: u32 = 0x200;

/// Cached nullability and positivity, kept above the low byte of a node's first word.
#[derive(Clone, Copy, Debug, PartialEq, Eq, Structural)]
pub struct ExprFlags(pub u32);

impl ExprFlags {
    /// Flags stay clear of the tag byte.
    pub open spec fn wf(self) -> bool {
        self.0 & 0xffu32 == 0
    }

    pub open spec fn nullable_spec(self) -> bool {
        self.0 & NULLABLE_BIT != 0
    }

    pub open spec fn positive_spec(self) -> bool {
        self.0 & POSITIVE_BIT != 0
    }

    pub fn zero() -> (r: ExprFlags)
        ensures
            r.0 == 0,
    {
        ExprFlags(0)
    }

    pub fn positive() -> (r: ExprFlags)
        ensures
            r.0 == POSITIVE_BIT,
    {
        ExprFlags(POSITIVE_BIT)
    }

    pub fn positive_nullable() -> (r: ExprFlags)
        ensures
            r.0 == POSITIVE_BIT | NULLABLE_BIT,
    {
        ExprFlags(POSITIVE_BIT | NULLABLE_BIT)
    }

    pub fn is_nullable(&self) -> (r: bool)
        ensures
            r == self.nullable_spec(),
    {
        self.0 & NULLABLE_BIT != 0
    }

    pub fn is_positive(&self) -> (r: bool)
        ensures
            r == self.positive_spec(),
    {
        self.0 & POSITIVE_BIT != 0
    }

    /// Flags for the given facts; whatever is nullable is also positive.
    pub fn from_nullable_positive(nullable: bool, positive: bool) -> (r: ExprFlags)
        ensures
            r.wf(),
            r.nullable_spec() == nullable,
            r.positive_spec() == (nullable || positive),
            r.0 == flag_word(nullable, positive),
    {
        proof {
            lemma_flag_constants();
        }
        if nullable {
            ExprFlags(POSITIVE_BIT | NULLABLE_BIT)
        } else if positive {
            ExprFlags(POSITIVE_BIT)
        } else {
            ExprFlags(0)
        }
    }

    /// The first word of a node with this tag and these flags.
    pub fn encode(&self, tag: ExprTag) -> (r: u32)
        ensures
            r == self.0 | tag_num(tag),
    {
        self.0 | tag.as_u32()
    }
}

/// The flag word for the given facts.
pub open spec fn flag_word(nullable: bool, positive: bool) -> u32 {
    if nullable {
        0x300u32
    } else if positive {
        0x200u32
    } else {
        0u32
    }
}

pub proof fn lemma_flag_constants()
    ensures
        0x300u32 & 0xffu32 == 0,
        0x200u32 & 0xffu32 == 0,
        0u32 & 0xffu32 == 0,
        0x300u32 & NULLABLE_BIT != 0,
        0x300u32 & POSITIVE_BIT != 0,
        0x200u32 & NULLABLE_BIT == 0,
        0x200u32 & POSITIVE_BIT != 0,
        0u32 & NULLABLE_BIT == 0,
        0u32 & POSITIVE_BIT == 0,
        POSITIVE_BIT | NULLABLE_BIT == 0x300u32,
{
    assert(0x300u32 & 0xffu32 == 0) by (bit_vector);
    assert(0x200u32 & 0xffu32 == 0) by (bit_vector);
    assert(0u32 & 0xffu32 == 0) by (bit_vector);
    assert(0x300u32 & 0x100u32 != 0) by (bit_vector);
    assert(0x300u32 & 0x200u32 != 0) by (bit_vector);
    assert(0x200u32 & 0x100u32 == 0) by (bit_vector);
    assert(0x200u32 & 0x200u32 != 0) by (bit_vector);
    assert(0u32 & 0x100u32 == 0) by (bit_vector);
    assert(0u32 & 0x200u32 == 0) by (bit_vector);
    assert(0x200u32 | 0x100u32 == 0x300u32) by (bit_vector);
}

/// Packing a flag word and a tag below 256 into one word keeps both readable.
pub proof fn lemma_pack(f: u32, t: u32)
    requires
        f & 0xffu32 == 0,
        t < 256,
    ensures
        (f | t) & 0xffu32 == t,
        (f | t) & !0xffu32 == f,
{
    assert((f | t) & 0xffu32 == t) by (bit_vector)
        requires
            f & 0xffu32 == 0,
            t < 256,
    ;
    assert((f | t) & !0xffu32 == f) by (bit_vector)
        requires
            f & 0xffu32 == 0,
            t < 256,
    ;
}

/// Any word splits into its flag part and its tag part.
pub proof fn lemma_unpack(w: u32)
    ensures
        (w & !0xffu32) | (w & 0xffu32) == w,
        (w & !0xffu32) & 0xffu32 == 0,
        w & 0xffu32 < 256,
{
    assert((w & !0xffu32) | (w & 0xffu32) == w) by (bit_vector);
    assert((w & !0xffu32) & 0xffu32 == 0) by (bit_vector);
    assert(w & 0xffu32 < 256) by (bit_vector);
}

/// Which variant a node is.
#[derive(Clone, Copy, Debug, PartialEq, Eq, Structural)]
pub enum ExprTag {
    EmptyString,
    NoMatch,
    Byte,
    ByteSet,
    RemainderIs,
    Lookahead,
    Not,
    Repeat,
    Concat,
    Or,
    And,
}

/// The number a tag is stored as: 1 to 11, in declaration order.
pub open spec fn tag_num(t: ExprTag) -> u32 {
    match t {
        ExprTag::EmptyString => 1,
        ExprTag::NoMatch => 2,
        ExprTag::Byte => 3,
        ExprTag::ByteSet => 4,
        ExprTag::RemainderIs => 5,
        ExprTag::Lookahead => 6,
        ExprTag::Not => 7,
        ExprTag::Repeat => 8,
        ExprTag::Concat => 9,
        ExprTag::Or => 10,
        ExprTag::And => 11,
    }
}

pub const MAX_TAG: u8 = 11;

impl ExprTag {
    pub fn as_u32(self) -> (r: u32)
        ensures
            r == tag_num(self),
    {
        match self {
            ExprTag::EmptyString => 1,
            ExprTag::NoMatch => 2,
            ExprTag::Byte => 3,
            ExprTag::ByteSet => 4,
            ExprTag::RemainderIs => 5,
            ExprTag::Lookahead => 6,
            ExprTag::Not => 7,
            ExprTag::Repeat => 8,
            ExprTag::Concat => 9,
            ExprTag::Or => 10,
            ExprTag::And => 11,
        }
    }

    /// The tag stored as `x`; there is none for 0 or above 11.
    pub fn from_u8(x: u8) -> (r: ExprTag)
        requires
            1 <= x <= MAX_TAG,
        ensures
            tag_num(r) == x,
    {
        if x == 1 {
            ExprTag::EmptyString
        } else if x == 2 {
            ExprTag::NoMatch
        } else if x == 3 {
            ExprTag::Byte
        } else if x == 4 {
            ExprTag::ByteSet
        } else if x == 5 {
            ExprTag::RemainderIs
        } else if x == 6 {
            ExprTag::Lookahead
        } else if x == 7 {
            ExprTag::Not
        } else if x == 8 {
            ExprTag::Repeat
        } else if x == 9 {
            ExprTag::Concat
        } else if x == 10 {
            ExprTag::Or
        } else {
            ExprTag::And
        }
    }
}

/// One expression node.
#[derive(Clone, Debug)]
pub enum Expr {
    EmptyString,
    NoMatch,
    Byte(u8),
    ByteSet(Vec<u32>),
    /// Numbers `N` written in digits with `N % d == r`.
    RemainderIs(u32, u32),
    Lookahead(ExprFlags, ExprRef, u32),
    Not(ExprFlags, ExprRef),
    Repeat(ExprFlags, ExprRef, u32, u32),
    Concat(ExprFlags, Vec<ExprRef>),
    Or(ExprFlags, Vec<ExprRef>),
    And(ExprFlags, Vec<ExprRef>),
}

/// The words that stand for a list of handles.
pub open spec fn ref_words(es: Seq<ExprRef>) -> Seq<u32> {
    es.map_values(|r: ExprRef| r.0)
}

impl Expr {
    pub open spec fn tag_spec(&self) -> ExprTag {
        match self {
            Expr::EmptyString => ExprTag::EmptyString,
            Expr::NoMatch => ExprTag::NoMatch,
            Expr::Byte(_) => ExprTag::Byte,
            Expr::ByteSet(_) => ExprTag::ByteSet,
            Expr::RemainderIs(_, _) => ExprTag::RemainderIs,
            Expr::Lookahead(_, _, _) => ExprTag::Lookahead,
            Expr::Not(_, _) => ExprTag::Not,
            Expr::Repeat(_, _, _, _) => ExprTag::Repeat,
            Expr::Concat(_, _) => ExprTag::Concat,
            Expr::Or(_, _) => ExprTag::Or,
            Expr::And(_, _) => ExprTag::And,
        }
    }

    /// Leaves compute their flags; other nodes carry the flags they were built with.
    pub open spec fn flags_spec(&self) -> ExprFlags {
        match self {
            Expr::EmptyString => ExprFlags(0x300),
            Expr::RemainderIs(_, k) => if *k == 0 {
                ExprFlags(0x300)
            } else {
                ExprFlags(0x200)
            },
            Expr::NoMatch => ExprFlags(0),
            Expr::Byte(_) | Expr::ByteSet(_) => ExprFlags(0x200),
            Expr::Lookahead(f, _, _) => *f,
            Expr::Not(f, _) => *f,
            Expr::Repeat(f, _, _, _) => *f,
            Expr::Concat(f, _) => *f,
            Expr::Or(f, _) => *f,
            Expr::And(f, _) => *f,
        }
    }

    pub open spec fn args_spec(&self) -> Seq<ExprRef> {
        match self {
            Expr::Concat(_, es) | Expr::Or(_, es) | Expr::And(_, es) => es@,
            Expr::Lookahead(_, e, _) | Expr::Not(_, e) | Expr::Repeat(_, e, _, _) => seq![*e],
            _ => Seq::empty(),
        }
    }

    /// Flags clear of the tag byte, and no reserved handle among the children.
    pub open spec fn wf(&self) -> bool {
        &&& self.flags_spec().wf()
        &&& (self.flags_spec().nullable_spec() ==> self.flags_spec().positive_spec())
        &&& forall|i: int| 0 <= i < self.args_spec().len() ==> #[trigger] self.args_spec()[i].0 != 0
    }

    /// The word sequence a node is stored as.
    pub open spec fn encode(&self) -> Seq<u32> {
        let w0 = self.flags_spec().0 | tag_num(self.tag_spec());
        match self {
            Expr::EmptyString | Expr::NoMatch => seq![w0],
            Expr::Byte(b) => seq![w0, *b as u32],
            Expr::ByteSet(s) => seq![w0] + s@,
            Expr::RemainderIs(d, r) => seq![w0, *d, *r],
            Expr::Lookahead(_, e, n) => seq![w0, e.0, *n],
            Expr::Not(_, e) => seq![w0, e.0],
            Expr::Repeat(_, e, a, b) => seq![w0, e.0, *a, *b],
            Expr::Concat(_, es) | Expr::Or(_, es) | Expr::And(_, es) => seq![w0] + ref_words(es@),
        }
    }

    /// Both nodes are the same variant with the same flags and fields.
    pub open spec fn same_node(&self, o: &Expr) -> bool {
        match (self, o) {
            (Expr::ByteSet(a), Expr::ByteSet(b)) => a@ == b@,
            (Expr::Concat(f, a), Expr::Concat(g, b)) => f == g && a@ == b@,
            (Expr::Or(f, a), Expr::Or(g, b)) => f == g && a@ == b@,
            (Expr::And(f, a), Expr::And(g, b)) => f == g && a@ == b@,
            (Expr::EmptyString, Expr::EmptyString) => true,
            (Expr::NoMatch, Expr::NoMatch) => true,
            (Expr::Byte(a), Expr::Byte(b)) => a == b,
            (Expr::RemainderIs(a, b), Expr::RemainderIs(c, d)) => a == c && b == d,
            (Expr::Lookahead(f, a, b), Expr::Lookahead(g, c, d)) => f == g && a == c && b == d,
            (Expr::Not(f, a), Expr::Not(g, b)) => f == g && a == b,
            (Expr::Repeat(f, a, b, c), Expr::Repeat(g, d, e, h)) => f == g && a == d && b == e
                && c == h,
            _ => false,
        }
    }

    /// Bytes for which membership can be asked.
    pub open spec fn byte_in_range(&self, b: u8) -> bool {
        match self {
            Expr::ByteSet(s) => b < bs_capacity(s@),
            _ => true,
        }
    }

    /// True only when the node surely matches no one-byte string starting with `b`.
    pub fn surely_no_match(&self, b: u8) -> (r: bool)
        requires
            self.byte_in_range(b),
        ensures
            r == match self {
                Expr::EmptyString | Expr::NoMatch => true,
                Expr::Byte(b2) => b != *b2,
                Expr::ByteSet(s) => !bs_has(s@, b as int),
                _ => false,
            },
    {
        match self {
            Expr::EmptyString => true,
            Expr::NoMatch => true,
            Expr::Byte(b2) => b != *b2,
            Expr::ByteSet(s) => !byteset_contains(s.as_slice(), b as usize),
            _ => false,
        }
    }

    /// Whether a leaf node matches the one-byte string `b`.
    pub fn matches_byte(&self, b: u8) -> (r: bool)
        requires
            self.byte_in_range(b),
            matches!(self, Expr::EmptyString | Expr::NoMatch | Expr::Byte(_) | Expr::ByteSet(_)),
        ensures
            r == match self {
                Expr::Byte(b2) => b == *b2,
                Expr::ByteSet(s) => bs_has(s@, b as int),
                _ => false,
            },
    {
        match self {
            Expr::Byte(b2) => b == *b2,
            Expr::ByteSet(s) => byteset_contains(s.as_slice(), b as usize),
            _ => false,
        }
    }

    /// The children: the list of an n-ary node, the one child of a unary node, or none.
    pub fn args(&self) -> (r: Vec<ExprRef>)
        ensures
            r@ == self.args_spec(),
    {
        match self {
            Expr::Concat(_, es) | Expr::Or(_, es) | Expr::And(_, es) => es.clone(),
            Expr::Lookahead(_, e, _) | Expr::Not(_, e) | Expr::Repeat(_, e, _, _) => vec![*e],
            _ => Vec::new(),
        }
    }

    pub fn get_flags(&self) -> (r: ExprFlags)
        ensures
            r == self.flags_spec(),
    {
        match self {
            Expr::EmptyString => ExprFlags(0x300),
            Expr::RemainderIs(_, k) => {
                if *k == 0 {
                    ExprFlags(0x300)
                } else {
                    ExprFlags(0x200)
                }
            },
            Expr::NoMatch => ExprFlags(0),
            Expr::Byte(_) | Expr::ByteSet(_) => ExprFlags(0x200),
            Expr::Lookahead(f, _, _) => *f,
            Expr::Not(f, _) => *f,
            Expr::Repeat(f, _, _, _) => *f,
            Expr::Concat(f, _) => *f,
            Expr::Or(f, _) => *f,
            Expr::And(f, _) => *f,
        }
    }

    pub fn nullable(&self) -> (r: bool)
        ensures
            r == self.flags_spec().nullable_spec(),
    {
        self.get_flags().is_nullable()
    }
}

/// The tag part of a node's first word.
pub open spec fn word_tag(w: u32) -> u32 {
    w & 0xffu32
}

/// The flag part of a node's first word.
pub open spec fn word_flags(w: u32) -> u32 {
    w & !0xffu32
}

/// A word sequence that some well-formed node encodes to.
pub open spec fn valid_words(s: Seq<u32>) -> bool {
    &&& s.len() >= 1
    &&& (word_flags(s[0]) & NULLABLE_BIT != 0 ==> word_flags(s[0]) & POSITIVE_BIT != 0)
    &&& {
        let t = word_tag(s[0]);
        let f = word_flags(s[0]);
        if t == 1 {
            s.len() == 1 && f == 0x300
        } else if t == 2 {
            s.len() == 1 && f == 0
        } else if t == 3 {
            s.len() == 2 && f == 0x200 && s[1] < 256
        } else if t == 4 {
            f == 0x200
        } else if t == 5 {
            s.len() == 3 && f == (if s[2] == 0 {
                0x300u32
            } else {
                0x200u32
            })
        } else if t == 6 {
            s.len() == 3 && s[1] != 0
        } else if t == 7 {
            s.len() == 2 && s[1] != 0
        } else if t == 8 {
            s.len() == 4 && s[1] != 0
        } else if 9 <= t <= 11 {
            forall|i: int| 1 <= i < s.len() ==> #[trigger] s[i] != 0
        } else {
            false
        }
    }
}

/// Every well-formed node encodes to a valid word sequence whose first word
/// holds its tag and its flags.
pub proof fn lemma_encode_valid(e: &Expr)
    requires
        e.wf(),
    ensures
        valid_words(e.encode()),
        word_tag(e.encode()[0]) == tag_num(e.tag_spec()),
        word_flags(e.encode()[0]) == e.flags_spec().0,
{
    lemma_flag_constants();
    lemma_pack(e.flags_spec().0, tag_num(e.tag_spec()));
    match e {
        Expr::Concat(_, es) | Expr::Or(_, es) | Expr::And(_, es) => {
            let s = e.encode();
            assert(e.args_spec() == es@);
            assert forall|i: int| 1 <= i < s.len() implies #[trigger] s[i] != 0 by {
                assert(s[i] == ref_words(es@)[i - 1]);
                assert(ref_words(es@)[i - 1] == es@[i - 1].0);
                assert(e.args_spec()[i - 1].0 != 0);
            }
            assert(s[0] == e.flags_spec().0 | tag_num(e.tag_spec()));
            assert(word_tag(s[0]) == tag_num(e.tag_spec()));
            assert(9 <= word_tag(s[0]) <= 11);
            assert(forall|i: int| 1 <= i < s.len() ==> #[trigger] s[i] != 0);
            assert(valid_words(s));
        },
        _ => {
            assert(e.args_spec().len() > 0 ==> e.args_spec()[0].0 != 0);
        },
    }
}

proof fn lemma_ref_words_injective(a: Seq<ExprRef>, b: Seq<ExprRef>)
    requires
        ref_words(a) == ref_words(b),
    ensures
        a == b,
{
    assert(a.len() == ref_words(a).len());
    assert forall|i: int| 0 <= i < a.len() implies a[i] == b[i] by {
        assert(ref_words(a)[i] == a[i].0);
        assert(ref_words(b)[i] == b[i].0);
    }
    assert(a =~= b);
}

proof fn lemma_tail(w: u32, a: Seq<u32>, b: Seq<u32>)
    requires
        seq![w] + a == seq![w] + b,
    ensures
        a == b,
{
    assert(a =~= (seq![w] + a).subrange(1, (a.len() + 1) as int));
    assert(b =~= (seq![w] + b).subrange(1, (b.len() + 1) as int));
}

/// Two well-formed nodes with the same encoding are the same node: the
/// encoding loses nothing, so decoding an encoded node gives back its tag,
/// flags and fields.
pub proof fn lemma_encoding_injective(a: &Expr, b: &Expr)
    requires
        a.wf(),
        b.wf(),
        a.encode() == b.encode(),
    ensures
        a.same_node(b),
        a.tag_spec() == b.tag_spec(),
        a.flags_spec() == b.flags_spec(),
{
    lemma_encode_valid(a);
    lemma_encode_valid(b);
    assert(a.encode()[0] == b.encode()[0]);
    let w0 = a.encode()[0];
    match (a, b) {
        (Expr::ByteSet(x), Expr::ByteSet(y)) => {
            lemma_tail(w0, x@, y@);
        },
        (Expr::Concat(_, x), Expr::Concat(_, y)) | (Expr::Or(_, x), Expr::Or(_, y)) | (
            Expr::And(_, x),
            Expr::And(_, y),
        ) => {
            lemma_tail(w0, ref_words(x@), ref_words(y@));
            lemma_ref_words_injective(x@, y@);
        },
        (Expr::Byte(x), Expr::Byte(y)) => {
            assert(a.encode()[1] == b.encode()[1]);
        },
        (Expr::RemainderIs(_, _), Expr::RemainderIs(_, _)) => {
            assert(a.encode()[1] == b.encode()[1]);
            assert(a.encode()[2] == b.encode()[2]);
        },
        (Expr::Lookahead(_, x, _), Expr::Lookahead(_, y, _)) => {
            assert(a.encode()[1] == b.encode()[1]);
            assert(a.encode()[2] == b.encode()[2]);
        },
        (Expr::Not(_, x), Expr::Not(_, y)) => {
            assert(a.encode()[1] == b.encode()[1]);
        },
        (Expr::Repeat(_, x, _, _), Expr::Repeat(_, y, _, _)) => {
            assert(a.encode()[1] == b.encode()[1]);
            assert(a.encode()[2] == b.encode()[2]);
            assert(a.encode()[3] == b.encode()[3]);
        },
        _ => {},
    }
}

/// Copies `s[start..]`.
fn words_from(s: &[u32], start: usize) -> (r: Vec<u32>)
    requires
        start <= s@.len(),
    ensures
        r@ == s@.subrange(start as int, s@.len() as int),
{
    let mut r: Vec<u32> = Vec::new();
    let mut i: usize = start;
    while i < s.len()
        invariant
            start <= i <= s@.len(),
            r@ == s@.subrange(start as int, i as int),
        decreases s@.len() - i,
    {
        r.push(s[i]);
        i = i + 1;
        assert(r@ =~= s@.subrange(start as int, i as int));
    }
    r
}

/// Reads `s[start..]` as handles.
fn refs_from(s: &[u32], start: usize) -> (r: Vec<ExprRef>)
    requires
        start <= s@.len(),
    ensures
        ref_words(r@) == s@.subrange(start as int, s@.len() as int),
        r@.len() == s@.len() - start,
        forall|k: int| 0 <= k < r@.len() ==> #[trigger] r@[k].0 == s@[start + k],
{
    let mut r: Vec<ExprRef> = Vec::new();
    let mut i: usize = start;
    while i < s.len()
        invariant
            start <= i <= s@.len(),
            r@.len() == i - start,
            forall|k: int| 0 <= k < r@.len() ==> #[trigger] r@[k].0 == s@[start + k],
        decreases s@.len() - i,
    {
        r.push(ExprRef(s[i]));
        i = i + 1;
    }
    assert(ref_words(r@) =~= s@.subrange(start as int, s@.len() as int));
    r
}

impl Expr {
    /// Decodes a stored word sequence.
    pub fn from_slice(s: &[u32]) -> (r: Expr)
        requires
            valid_words(s@),
        ensures
            r.wf(),
            r.encode() == s@,
    {
        let w0 = s[0];
        let flags = ExprFlags(w0 & !0xffu32);
        let t = (w0 & 0xffu32) as u8;
        proof {
            lemma_unpack(w0);
            lemma_flag_constants();
        }
        let tag = ExprTag::from_u8(t);
        let r = match tag {
            ExprTag::EmptyString => Expr::EmptyString,
            ExprTag::NoMatch => Expr::NoMatch,
            ExprTag::Byte => Expr::Byte(s[1] as u8),
            ExprTag::ByteSet => Expr::ByteSet(words_from(s, 1)),
            ExprTag::Lookahead => Expr::Lookahead(flags, ExprRef::new(s[1]), s[2]),
            ExprTag::Not => Expr::Not(flags, ExprRef::new(s[1])),
            ExprTag::RemainderIs => Expr::RemainderIs(s[1], s[2]),
            ExprTag::Repeat => Expr::Repeat(flags, ExprRef::new(s[1]), s[2], s[3]),
            ExprTag::Concat => Expr::Concat(flags, refs_from(s, 1)),
            ExprTag::Or => Expr::Or(flags, refs_from(s, 1)),
            ExprTag::And => Expr::And(flags, refs_from(s, 1)),
        };
        proof {
            lemma_pack(r.flags_spec().0, tag_num(r.tag_spec()));
            match &r {
                Expr::Concat(_, es) | Expr::Or(_, es) | Expr::And(_, es) => {
                    assert(r.args_spec() == es@);
                    assert forall|i: int| 0 <= i < r.args_spec().len() implies #[trigger] r.args_spec()[i].0 != 0 by {
                        assert(es@[i].0 == s@[1 + i]);
                    }
                    assert(r.encode() =~= s@);
                },
                Expr::ByteSet(_) => {
                    assert(r.encode() =~= s@);
                },
                _ => {
                    assert(r.encode() =~= s@);
                },
            }
        }
        r
    }

    /// The word sequence this node is stored as.
    pub fn serialize(&self) -> (r: Vec<u32>)
        ensures
            r@ == self.encode(),
    {
        let flags = self.get_flags();
        match self {
            Expr::EmptyString => vec![flags.encode(ExprTag::EmptyString)],
            Expr::NoMatch => vec![flags.encode(ExprTag::NoMatch)],
            Expr::RemainderIs(d, r) => vec![flags.encode(ExprTag::RemainderIs), *d, *r],
            Expr::Byte(b) => vec![flags.encode(ExprTag::Byte), *b as u32],
            Expr::ByteSet(s) => {
                let mut r = vec![flags.encode(ExprTag::ByteSet)];
                let mut i: usize = 0;
                while i < s.len()
                    invariant
                        i <= s@.len(),
                        r@ == seq![flags.0 | tag_num(ExprTag::ByteSet)] + s@.subrange(0, i as int),
                    decreases s@.len() - i,
                {
                    r.push(s[i]);
                    i = i + 1;
                    assert(r@ =~= seq![flags.0 | tag_num(ExprTag::ByteSet)] + s@.subrange(0, i as int));
                }
                assert(s@.subrange(0, s@.len() as int) =~= s@);
                r
            },
            Expr::Lookahead(f, e, n) => vec![f.encode(ExprTag::Lookahead), e.0, *n],
            Expr::Not(f, e) => vec![f.encode(ExprTag::Not), e.0],
            Expr::Repeat(f, e, a, b) => vec![f.encode(ExprTag::Repeat), e.0, *a, *b],
            Expr::Concat(f, es) => nary_serialize(f.encode(ExprTag::Concat), es),
            Expr::Or(f, es) => nary_serialize(f.encode(ExprTag::Or), es),
            Expr::And(f, es) => nary_serialize(f.encode(ExprTag::And), es),
        }
    }
}

fn nary_serialize(w0: u32, es: &Vec<ExprRef>) -> (r: Vec<u32>)
    ensures
        r@ == seq![w0] + ref_words(es@),
{
    let mut r = vec![w0];
    let mut i: usize = 0;
    while i < es.len()
        invariant
            i <= es@.len(),
            r@ == seq![w0] + ref_words(es@.subrange(0, i as int)),
        decreases es@.len() - i,
    {
        r.push(es[i].0);
        i = i + 1;
        assert(r@ =~= seq![w0] + ref_words(es@.subrange(0, i as int)));
    }
    assert(es@.subrange(0, es@.len() as int) =~= es@);
    r
}

} // verus!
