//! Tagged immediate words.
//!
//! A Scheme value that needs no heap allocation is packed into one 64-bit
//! word whose low-order bits say what the word holds. The tag table lists the
//! patterns from the longest to the shortest, which is the order in which a
//! word is matched against them.

use vstd::prelude::*;

verus! {

/// Number of low-order bits that tag a fixnum.
pub const FIXNUM_SHIFT: u32 = 2;

/// The bits that tag a fixnum.
pub const FIXNUM_MASK: u64 = 0b11;

/// The tag of a fixnum.
pub const FIXNUM_TAG: u64 = 0b00;

/// Smallest integer a fixnum can hold: `-2^61`.
pub const FIXNUM_MIN: i64 = -0x2000_0000_0000_0000;

/// Largest integer a fixnum can hold: `2^61 - 1`.
pub const FIXNUM_MAX: i64 = 0x1fff_ffff_ffff_ffff;

/// Number of payload bits of a fixnum.
pub const FIXNUM_BITS: u32 = 62;

/// Number of low-order bits that tag a character.
pub const CHAR_SHIFT: u32 = 8;

/// The bits that tag a character.
pub const CHAR_MASK: u64 = 0xff;

/// The tag of a character.
pub const CHAR_TAG: u64 = 0b00001111;

/// Number of low-order bits that tag a boolean; the next bit is its truth
/// value.
pub const BOOL_SHIFT: u32 = 7;

/// The bits that tag a boolean.
pub const BOOL_MASK: u64 = 0x7f;

/// The tag of a boolean.
pub const BOOL_TAG: u64 = 0b0011111;

/// The bits that tag the empty list.
pub const EMPTY_LIST_MASK: u64 = 0xff;

/// The one word that stands for the empty list.
pub const EMPTY_LIST: u64 = 0b00101111;

/// The word of `#t`.
pub const TRUE_VAL: u64 = 0b10011111;

/// The word of `#f`.
pub const FALSE_VAL: u64 = 0b0011111;

/// A value that fits in a tagged immediate word.
#[derive(Clone, Copy, Debug, PartialEq, Eq, Structural)]
pub enum SchemeVal {
    Fixnum(i64),
    Char(char),
    Bool(bool),
    EmptyList,
}

/// What the low-order bits of a word say the word holds.
#[derive(Clone, Copy, Debug, PartialEq, Eq, Structural)]
pub enum WordKind {
    Fixnum,
    Char,
    Bool,
    EmptyList,
    HeapPointer,
}

/// A fixnum literal that does not fit in the payload of a word.
#[derive(Clone, Copy, Debug, PartialEq, Eq, Structural)]
pub struct EncodeError {
    /// The literal that was to be encoded.
    pub literal: i64,
    /// The number of bits a two's-complement payload needs to hold it.
    pub required_bits: u32,
}

/// One row of the tag table: a word matches when its low `width` bits equal
/// `pattern`.
#[derive(Clone, Copy, Debug, PartialEq, Eq, Structural)]
pub struct TagEntry {
    pub kind: WordKind,
    pub width: u32,
    pub mask: u64,
    pub pattern: u64,
}

impl SchemeVal {
    /// The kind of word this value is encoded as.
    pub open spec fn kind(self) -> WordKind {
        match self {
            SchemeVal::Fixnum(_) => WordKind::Fixnum,
            SchemeVal::Char(_) => WordKind::Char,
            SchemeVal::Bool(_) => WordKind::Bool,
            SchemeVal::EmptyList => WordKind::EmptyList,
        }
    }

    /// Whether the value has an encoding: every value but a fixnum outside
    /// `FIXNUM_MIN ..= FIXNUM_MAX`.
    pub open spec fn representable(self) -> bool {
        match self {
            SchemeVal::Fixnum(n) => FIXNUM_MIN <= n <= FIXNUM_MAX,
            _ => true,
        }
    }
}

impl TagEntry {
    /// Whether the low bits of `word` are the pattern of this row.
    pub open spec fn matches(self, word: u64) -> bool {
        word & self.mask == self.pattern
    }
}

/// Whether `p` is a Unicode scalar value.
pub open spec fn is_scalar(p: int) -> bool {
    0 <= p <= 0xD7FF || 0xE000 <= p <= 0x10FFFF
}

/// The number of bits a two's-complement integer needs to hold `n`, for an
/// `n` that 62 bits cannot hold.
pub open spec fn signed_width(n: i64) -> u32 {
    if -0x4000_0000_0000_0000 <= n < 0x4000_0000_0000_0000 {
        63
    } else {
        64
    }
}

/// The word of a fixnum: `4 * n` in 64-bit two's complement.
pub open spec fn fixnum_word(n: i64) -> u64 {
    if n >= 0 {
        (4 * n) as u64
    } else {
        (4 * n + 0x1_0000_0000_0000_0000) as u64
    }
}

/// The integer a fixnum word holds.
pub open spec fn fixnum_payload(word: u64) -> i64 {
    if word < 0x8000_0000_0000_0000 {
        (word / 4) as i64
    } else {
        ((word - 0x1_0000_0000_0000_0000) / 4) as i64
    }
}

/// The word of a character: its scalar value above the eight tag bits.
pub open spec fn char_word(c: char) -> u64 {
    (256 * (c as u64) + CHAR_TAG) as u64
}

/// The word a value is encoded as, or `None` where it has none.
pub open spec fn spec_encode(v: SchemeVal) -> Option<u64> {
    match v {
        SchemeVal::Fixnum(n) => if FIXNUM_MIN <= n <= FIXNUM_MAX {
            Some(fixnum_word(n))
        } else {
            None
        },
        SchemeVal::Char(c) => Some(char_word(c)),
        SchemeVal::Bool(b) => Some(
            if b {
                TRUE_VAL
            } else {
                FALSE_VAL
            },
        ),
        SchemeVal::EmptyList => Some(EMPTY_LIST),
    }
}

/// The value a word holds, or `None` for a heap pointer and for a word whose
/// tag is that of an immediate while its other bits are those of no value.
pub open spec fn spec_decode(word: u64) -> Option<SchemeVal> {
    if word == EMPTY_LIST {
        Some(SchemeVal::EmptyList)
    } else if word == TRUE_VAL {
        Some(SchemeVal::Bool(true))
    } else if word == FALSE_VAL {
        Some(SchemeVal::Bool(false))
    } else if word % 256 == CHAR_TAG {
        if is_scalar(word as int / 256) {
            Some(SchemeVal::Char((word / 256) as char))
        } else {
            None
        }
    } else if word % 4 == FIXNUM_TAG {
        Some(SchemeVal::Fixnum(fixnum_payload(word)))
    } else {
        None
    }
}

/// The tag table, longest patterns first.
pub open spec fn spec_tag_table() -> Seq<TagEntry> {
    seq![
        TagEntry { kind: WordKind::Char, width: 8, mask: CHAR_MASK, pattern: CHAR_TAG },
        TagEntry { kind: WordKind::EmptyList, width: 8, mask: EMPTY_LIST_MASK, pattern: EMPTY_LIST },
        TagEntry { kind: WordKind::Bool, width: 7, mask: BOOL_MASK, pattern: BOOL_TAG },
        TagEntry { kind: WordKind::Fixnum, width: 2, mask: FIXNUM_MASK, pattern: FIXNUM_TAG },
    ]
}

/// The kind of the first row from `from` on that `word` matches, and
/// `HeapPointer` where it matches none.
pub open spec fn first_match(table: Seq<TagEntry>, word: u64, from: int) -> WordKind
    decreases table.len() - from,
{
    if from < 0 || from >= table.len() {
        WordKind::HeapPointer
    } else if table[from].matches(word) {
        table[from].kind
    } else {
        first_match(table, word, from + 1)
    }
}

/// The kind of a word: that of the first row of the tag table it matches.
pub open spec fn spec_kind_of(word: u64) -> WordKind {
    first_match(spec_tag_table(), word, 0)
}

/// `char::from_u32` gives the character whose scalar value is `i`, and
/// `None` when `i` is a surrogate or lies above `0x10FFFF`.
pub assume_specification[ char::from_u32 ](i: u32) -> (r: Option<char>)
    ensures
        r == (if is_scalar(i as int) {
            Some(i as char)
        } else {
            None::<char>
        }),
;

/// The tag table as a value: patterns, widths and match order.
pub fn tag_table() -> (table: Vec<TagEntry>)
    ensures
        table@ == spec_tag_table(),
{
    let mut table: Vec<TagEntry> = Vec::new();
    table.push(TagEntry { kind: WordKind::Char, width: 8, mask: CHAR_MASK, pattern: CHAR_TAG });
    table.push(
        TagEntry { kind: WordKind::EmptyList, width: 8, mask: EMPTY_LIST_MASK, pattern: EMPTY_LIST },
    );
    table.push(TagEntry { kind: WordKind::Bool, width: 7, mask: BOOL_MASK, pattern: BOOL_TAG });
    table.push(TagEntry { kind: WordKind::Fixnum, width: 2, mask: FIXNUM_MASK, pattern: FIXNUM_TAG });
    assert(table@ =~= spec_tag_table());
    table
}

/// Matches `word` against the rows of `table` in order.
pub fn classify(table: &Vec<TagEntry>, word: u64) -> (kind: WordKind)
    ensures
        kind == first_match(table@, word, 0),
{
    let mut i: usize = 0;
    while i < table.len()
        invariant
            i <= table.len(),
            first_match(table@, word, 0) == first_match(table@, word, i as int),
        decreases table.len() - i,
    {
        if word & table[i].mask == table[i].pattern {
            return table[i].kind;
        }
        i = i + 1;
    }
    WordKind::HeapPointer
}

/// The kind of a word, by its low-order bits alone.
pub fn kind_of(word: u64) -> (kind: WordKind)
    ensures
        kind == spec_kind_of(word),
{
    let table = tag_table();
    classify(&table, word)
}

/// Encodes a value as a tagged word. Fails on a fixnum that 62 bits cannot
/// hold, and on nothing else.
pub fn encode(v: SchemeVal) -> (r: Result<u64, EncodeError>)
    ensures
        match r {
            Ok(word) => spec_encode(v) == Some(word),
            Err(e) => v matches SchemeVal::Fixnum(n) && !(FIXNUM_MIN <= n <= FIXNUM_MAX)
                && e.literal == n && e.required_bits == signed_width(n),
        },
{
    match v {
        SchemeVal::Fixnum(n) => {
            if n < FIXNUM_MIN || n > FIXNUM_MAX {
                let required_bits: u32 = if -0x4000_0000_0000_0000 <= n && n
                    < 0x4000_0000_0000_0000 {
                    63
                } else {
                    64
                };
                Err(EncodeError { literal: n, required_bits })
            } else if n >= 0 {
                let u: u64 = n as u64;
                assert(u << 2u64 == 4 * u) by (bit_vector)
                    requires
                        u <= 0x1fff_ffff_ffff_ffff,
                ;
                Ok(u << FIXNUM_SHIFT)
            } else {
                let m: u64 = (-(n + 1)) as u64;
                assert(!((m << 2u64) | 3u64) == 0xffff_ffff_ffff_fffc - 4 * m) by (bit_vector)
                    requires
                        m <= 0x1fff_ffff_ffff_ffff,
                ;
                Ok(!((m << FIXNUM_SHIFT) | FIXNUM_MASK))
            }
        },
        SchemeVal::Char(c) => {
            let u: u64 = c as u64;
            assert((u << 8u64) | 0x0fu64 == 256 * u + 0x0f) by (bit_vector)
                requires
                    u <= 0x10FFFF,
            ;
            Ok((u << CHAR_SHIFT) | CHAR_TAG)
        },
        SchemeVal::Bool(b) => {
            if b {
                Ok(TRUE_VAL)
            } else {
                Ok(FALSE_VAL)
            }
        },
        SchemeVal::EmptyList => Ok(EMPTY_LIST),
    }
}

/// Decodes a tagged word. The longest tags are tried first, so a word is a
/// fixnum only when no more specific tag claims it.
pub fn decode(word: u64) -> (r: Option<SchemeVal>)
    ensures
        r == spec_decode(word),
{
    proof {
        lemma_kind_by_arithmetic(word);
    }
    match kind_of(word) {
        WordKind::Char => {
            let payload: u64 = word >> CHAR_SHIFT;
            assert(word >> 8u64 == word / 256) by (bit_vector);
            if payload <= 0x10FFFF {
                match char::from_u32(payload as u32) {
                    Some(c) => Some(SchemeVal::Char(c)),
                    None => None,
                }
            } else {
                None
            }
        },
        WordKind::EmptyList => {
            if word == EMPTY_LIST {
                Some(SchemeVal::EmptyList)
            } else {
                None
            }
        },
        WordKind::Bool => {
            if word == TRUE_VAL {
                Some(SchemeVal::Bool(true))
            } else if word == FALSE_VAL {
                Some(SchemeVal::Bool(false))
            } else {
                None
            }
        },
        WordKind::Fixnum => {
            if word < 0x8000_0000_0000_0000 {
                assert(word >> 2u64 == word / 4) by (bit_vector);
                Some(SchemeVal::Fixnum((word >> FIXNUM_SHIFT) as i64))
            } else {
                let m: u64 = (!word) >> FIXNUM_SHIFT;
                assert((!word) >> 2u64 == (0xffff_ffff_ffff_fffcu64 - word) as u64 / 4 && (!word) >> 2u64
                    <= 0x1fff_ffff_ffff_ffffu64) by (bit_vector)
                    requires
                        word >= 0x8000_0000_0000_0000,
                        word % 4 == 0,
                ;
                Some(SchemeVal::Fixnum(-(m as i64) - 1))
            }
        },
        WordKind::HeapPointer => None,
    }
}

/// The kind of a word, said with remainders in place of masks.
pub proof fn lemma_kind_by_arithmetic(word: u64)
    ensures
        spec_kind_of(word) == (if word % 256 == CHAR_TAG {
            WordKind::Char
        } else if word % 256 == EMPTY_LIST {
            WordKind::EmptyList
        } else if word % 128 == BOOL_TAG {
            WordKind::Bool
        } else if word % 4 == FIXNUM_TAG {
            WordKind::Fixnum
        } else {
            WordKind::HeapPointer
        }),
{
    reveal_with_fuel(first_match, 5);
    assert(word & 0xff == word % 256) by (bit_vector);
    assert(word & 0x7f == word % 128) by (bit_vector);
    assert(word & 0x3 == word % 4) by (bit_vector);
}

/// Decoding undoes encoding: every value that has a word is what its word
/// decodes to.
pub proof fn lemma_decode_encode(v: SchemeVal)
    requires
        v.representable(),
    ensures
        spec_encode(v) is Some,
        spec_decode(spec_encode(v).unwrap()) == Some(v),
{
    match v {
        SchemeVal::Fixnum(n) => {
            let word = fixnum_word(n);
            assert(word % 4 == 0);
            assert(word != EMPTY_LIST && word != TRUE_VAL && word != FALSE_VAL);
            assert(word % 256 != CHAR_TAG) by {
                assert(word % 256 == 15 ==> word % 4 == 3) by (bit_vector);
            }
        },
        SchemeVal::Char(c) => {
            let word = char_word(c);
            assert(word as int / 256 == c as int);
            assert(word % 256 == 15);
        },
        SchemeVal::Bool(_) => {},
        SchemeVal::EmptyList => {},
    }
}

/// Encoding undoes decoding: a word that holds a value is the one word that
/// value is encoded as, so no two words hold the same value.
pub proof fn lemma_encode_decode(word: u64)
    requires
        spec_decode(word) is Some,
    ensures
        spec_decode(word).unwrap().representable(),
        spec_encode(spec_decode(word).unwrap()) == Some(word),
{
    let v = spec_decode(word).unwrap();
    match v {
        SchemeVal::Fixnum(n) => {
            assert(word % 4 == 0);
        },
        SchemeVal::Char(c) => {
            assert(word % 256 == 15);
            assert(c as int == word as int / 256);
        },
        SchemeVal::Bool(_) => {},
        SchemeVal::EmptyList => {},
    }
}

/// The empty list has one word: `EMPTY_LIST` decodes to it and no other
/// word does.
pub proof fn lemma_empty_list_unique(word: u64)
    ensures
        spec_decode(word) == Some(SchemeVal::EmptyList) <==> word == EMPTY_LIST,
{
}

/// Every row of the tag table masks exactly its low `width` bits, and its
/// pattern lies within them.
pub proof fn lemma_tag_table_rows(i: int)
    requires
        0 <= i < spec_tag_table().len(),
    ensures
        0 < spec_tag_table()[i].width < 64,
        spec_tag_table()[i].mask == (1u64 << spec_tag_table()[i].width) - 1,
        spec_tag_table()[i].pattern & spec_tag_table()[i].mask == spec_tag_table()[i].pattern,
        i > 0 ==> spec_tag_table()[i - 1].width >= spec_tag_table()[i].width,
{
    assert(0xffu64 == (1u64 << 8u32) - 1) by (bit_vector);
    assert(0x7fu64 == (1u64 << 7u32) - 1) by (bit_vector);
    assert(0x3u64 == (1u64 << 2u32) - 1) by (bit_vector);
    assert(0x0fu64 & 0xffu64 == 0x0fu64) by (bit_vector);
    assert(0x2fu64 & 0xffu64 == 0x2fu64) by (bit_vector);
    assert(0x1fu64 & 0x7fu64 == 0x1fu64) by (bit_vector);
    assert(0x0u64 & 0x3u64 == 0x0u64) by (bit_vector);
}

/// No word matches two rows of the tag table.
pub proof fn lemma_tags_disjoint(word: u64, i: int, j: int)
    requires
        0 <= i < spec_tag_table().len(),
        0 <= j < spec_tag_table().len(),
        spec_tag_table()[i].matches(word),
        spec_tag_table()[j].matches(word),
    ensures
        i == j,
{
    assert(!(word & 0xff == 0x0f && word & 0xff == 0x2f)) by (bit_vector);
    assert(!(word & 0xff == 0x0f && word & 0x7f == 0x1f)) by (bit_vector);
    assert(!(word & 0xff == 0x0f && word & 0x3 == 0x0)) by (bit_vector);
    assert(!(word & 0xff == 0x2f && word & 0x7f == 0x1f)) by (bit_vector);
    assert(!(word & 0xff == 0x2f && word & 0x3 == 0x0)) by (bit_vector);
    assert(!(word & 0x7f == 0x1f && word & 0x3 == 0x0)) by (bit_vector);
}

/// A word that matches a row of the tag table is of that row's kind, and a
/// word is a heap pointer exactly when it matches no row. So a word that a
/// longer tag claims is never taken for a fixnum.
pub proof fn lemma_kind_is_the_match(word: u64)
    ensures
        forall|i: int|
            0 <= i < spec_tag_table().len() && #[trigger] spec_tag_table()[i].matches(word)
                ==> spec_kind_of(word) == spec_tag_table()[i].kind,
        spec_kind_of(word) == WordKind::HeapPointer <==> forall|i: int|
            0 <= i < spec_tag_table().len() ==> !#[trigger] spec_tag_table()[i].matches(word),
{
    reveal_with_fuel(first_match, 5);
    assert forall|i: int|
        0 <= i < spec_tag_table().len() && #[trigger] spec_tag_table()[i].matches(
            word,
        ) implies spec_kind_of(word) == spec_tag_table()[i].kind by {
        if spec_tag_table()[0].matches(word) {
            lemma_tags_disjoint(word, 0, i);
        } else if spec_tag_table()[1].matches(word) {
            lemma_tags_disjoint(word, 1, i);
        } else if spec_tag_table()[2].matches(word) {
            lemma_tags_disjoint(word, 2, i);
        } else {
            lemma_tags_disjoint(word, 3, i);
        }
    }
    if spec_kind_of(word) == WordKind::HeapPointer {
        assert(!spec_tag_table()[0].matches(word));
        assert(!spec_tag_table()[1].matches(word));
        assert(!spec_tag_table()[2].matches(word));
        assert(!spec_tag_table()[3].matches(word));
    } else {
        assert(spec_tag_table()[0].matches(word) || spec_tag_table()[1].matches(word)
            || spec_tag_table()[2].matches(word) || spec_tag_table()[3].matches(word));
    }
}

/// The low-order bits of a word that holds a value name the kind of that
/// value: decoding never yields a value of another kind.
pub proof fn lemma_decoded_kind(word: u64)
    requires
        spec_decode(word) is Some,
    ensures
        spec_kind_of(word) == spec_decode(word).unwrap().kind(),
{
    lemma_kind_by_arithmetic(word);
}

} // verus!
