//! The record codec: one mutation (`Set` or `Remove`) serialized as a
//! self-delimiting, human-readable byte sequence, shaped
//! `{"Set":{"key":K,"value":V}}` or `{"Remove":{"key":K}}`.
//!
//! Key and value are arbitrary byte strings (in practice the UTF-8 bytes of
//! the caller's strings).  Inside a quoted string the encoder escapes the
//! quote and the backslash with a backslash, and every byte below 0x20 as
//! `\u00xx` with two lowercase hex digits; every other byte stands for
//! itself.  The decoder accepts exactly the encoder's output, so encoding is
//! canonical: a successful parse consumes precisely one encoded record.

use vstd::prelude::*;

use crate::errors::KvError;

verus! {

/// One serialized mutation of the store.
pub enum Record {
    Put { key: Vec<u8>, value: Vec<u8> },
    Remove { key: Vec<u8> },
}

/// The mathematical value of a [`Record`].
pub ghost enum RecordView {
    Put { key: Seq<u8>, value: Seq<u8> },
    Remove { key: Seq<u8> },
}

impl View for Record {
    type V = RecordView;

    open spec fn view(&self) -> RecordView {
        match self {
            Record::Put { key, value } => RecordView::Put { key: key@, value: value@ },
            Record::Remove { key } => RecordView::Remove { key: key@ },
        }
    }
}

pub const QUOTE: u8 = 34;
pub const BACKSLASH: u8 = 92;

/// `{"`
pub open spec fn lit_obj_start() -> Seq<u8> {
    seq![123u8, 34u8]
}

/// `Set":{"key":"`
pub open spec fn lit_set_tag() -> Seq<u8> {
    seq![83u8, 101u8, 116u8, 34u8, 58u8, 123u8, 34u8, 107u8, 101u8, 121u8, 34u8, 58u8, 34u8]
}

/// `Remove":{"key":"`
pub open spec fn lit_rm_tag() -> Seq<u8> {
    seq![
        82u8,
        101u8,
        109u8,
        111u8,
        118u8,
        101u8,
        34u8,
        58u8,
        123u8,
        34u8,
        107u8,
        101u8,
        121u8,
        34u8,
        58u8,
        34u8,
    ]
}

/// `,"value":"`
pub open spec fn lit_value_sep() -> Seq<u8> {
    seq![44u8, 34u8, 118u8, 97u8, 108u8, 117u8, 101u8, 34u8, 58u8, 34u8]
}

/// `}}`
pub open spec fn lit_obj_end() -> Seq<u8> {
    seq![125u8, 125u8]
}

/// The lowercase hex digit for a value below 16.
pub open spec fn hex_digit(x: u8) -> u8 {
    if x < 10 {
        (x + 48) as u8
    } else {
        (x + 87) as u8
    }
}

pub open spec fn is_hex_digit(b: u8) -> bool {
    (48 <= b && b <= 57) || (97 <= b && b <= 102)
}

/// The value of a lowercase hex digit.
pub open spec fn hex_val(b: u8) -> int {
    if 48 <= b && b <= 57 {
        b - 48
    } else {
        b - 87
    }
}

/// The escape sequence for one byte of string content.
pub open spec fn esc_byte(b: u8) -> Seq<u8> {
    if b == QUOTE {
        seq![BACKSLASH, QUOTE]
    } else if b == BACKSLASH {
        seq![BACKSLASH, BACKSLASH]
    } else if b < 32 {
        seq![BACKSLASH, 117u8, 48u8, 48u8, hex_digit(b / 16), hex_digit(b % 16)]
    } else {
        seq![b]
    }
}

/// The escaped form of a whole byte string.
pub open spec fn esc(s: Seq<u8>) -> Seq<u8>
    decreases s.len(),
{
    if s.len() == 0 {
        Seq::empty()
    } else {
        esc_byte(s[0]) + esc(s.drop_first())
    }
}

/// A string's content followed by its closing quote (the opening quote
/// belongs to the literal before it).
pub open spec fn enc_str(s: Seq<u8>) -> Seq<u8> {
    esc(s) + seq![QUOTE]
}

/// The full encoding of one record.
pub open spec fn enc_record(r: RecordView) -> Seq<u8> {
    match r {
        RecordView::Put { key, value } => lit_obj_start() + lit_set_tag() + enc_str(key)
            + lit_value_sep() + enc_str(value) + lit_obj_end(),
        RecordView::Remove { key } => lit_obj_start() + lit_rm_tag() + enc_str(key)
            + lit_obj_end(),
    }
}

/// Outcome of matching a fixed literal at a position.
pub ghost enum LitMatch {
    /// The literal is present; the position just past it.
    Found { end: int },
    /// A byte differs from the literal.
    Mismatch,
    /// The bytes end inside the literal, which matches as far as they go.
    OutOfBytes,
}

pub open spec fn spec_match_lit(s: Seq<u8>, pos: int, lit: Seq<u8>) -> LitMatch
    decreases lit.len(),
{
    if lit.len() == 0 {
        LitMatch::Found { end: pos }
    } else if pos < 0 || pos >= s.len() {
        LitMatch::OutOfBytes
    } else if s[pos] != lit[0] {
        LitMatch::Mismatch
    } else {
        spec_match_lit(s, pos + 1, lit.drop_first())
    }
}

/// Outcome of parsing a quoted string's content from a position.
pub ghost enum StrParse {
    Done { content: Seq<u8>, end: int },
    Corrupt,
    Truncated,
}

/// Parse string content up to and including the closing quote.
pub open spec fn sdec_str(s: Seq<u8>, pos: int) -> StrParse
    decreases s.len() - pos,
{
    if pos < 0 || pos >= s.len() {
        StrParse::Truncated
    } else if s[pos] == QUOTE {
        StrParse::Done { content: Seq::empty(), end: pos + 1 }
    } else if s[pos] == BACKSLASH {
        if pos + 1 >= s.len() {
            StrParse::Truncated
        } else if s[pos + 1] == QUOTE || s[pos + 1] == BACKSLASH {
            match sdec_str(s, pos + 2) {
                StrParse::Done { content, end } => StrParse::Done {
                    content: seq![s[pos + 1]] + content,
                    end,
                },
                other => other,
            }
        } else if s[pos + 1] == 117 {
            if pos + 5 >= s.len() {
                StrParse::Truncated
            } else if s[pos + 2] == 48 && s[pos + 3] == 48 && is_hex_digit(s[pos + 4])
                && is_hex_digit(s[pos + 5]) && 16 * hex_val(s[pos + 4]) + hex_val(s[pos + 5])
                < 32 {
                match sdec_str(s, pos + 6) {
                    StrParse::Done { content, end } => StrParse::Done {
                        content: seq![(16 * hex_val(s[pos + 4]) + hex_val(s[pos + 5])) as u8]
                            + content,
                        end,
                    },
                    other => other,
                }
            } else {
                StrParse::Corrupt
            }
        } else {
            StrParse::Corrupt
        }
    } else if s[pos] < 32 {
        StrParse::Corrupt
    } else {
        match sdec_str(s, pos + 1) {
            StrParse::Done { content, end } => StrParse::Done {
                content: seq![s[pos]] + content,
                end,
            },
            other => other,
        }
    }
}

/// Outcome of parsing one record from a position.
pub ghost enum RecParse {
    Parsed { rec: RecordView, end: int },
    Corrupt,
    Truncated,
}

/// Parse one record.  The byte after `{"` decides the variant, so parsing
/// never backtracks.
pub open spec fn sdec_record(s: Seq<u8>, pos: int) -> RecParse {
    match spec_match_lit(s, pos, lit_obj_start()) {
        LitMatch::Mismatch => RecParse::Corrupt,
        LitMatch::OutOfBytes => RecParse::Truncated,
        LitMatch::Found { end: p_tag } => {
            if p_tag >= s.len() {
                RecParse::Truncated
            } else if s[p_tag] == 83 {
                sdec_set_body(s, p_tag)
            } else if s[p_tag] == 82 {
                sdec_remove_body(s, p_tag)
            } else {
                RecParse::Corrupt
            }
        },
    }
}

pub open spec fn sdec_set_body(s: Seq<u8>, p_tag: int) -> RecParse {
    match spec_match_lit(s, p_tag, lit_set_tag()) {
        LitMatch::Mismatch => RecParse::Corrupt,
        LitMatch::OutOfBytes => RecParse::Truncated,
        LitMatch::Found { end: p_key } => match sdec_str(s, p_key) {
            StrParse::Corrupt => RecParse::Corrupt,
            StrParse::Truncated => RecParse::Truncated,
            StrParse::Done { content: key, end: p_sep } => match spec_match_lit(
                s,
                p_sep,
                lit_value_sep(),
            ) {
                LitMatch::Mismatch => RecParse::Corrupt,
                LitMatch::OutOfBytes => RecParse::Truncated,
                LitMatch::Found { end: p_val } => match sdec_str(s, p_val) {
                    StrParse::Corrupt => RecParse::Corrupt,
                    StrParse::Truncated => RecParse::Truncated,
                    StrParse::Done { content: value, end: p_close } => match spec_match_lit(
                        s,
                        p_close,
                        lit_obj_end(),
                    ) {
                        LitMatch::Mismatch => RecParse::Corrupt,
                        LitMatch::OutOfBytes => RecParse::Truncated,
                        LitMatch::Found { end } => RecParse::Parsed {
                            rec: RecordView::Put { key, value },
                            end,
                        },
                    },
                },
            },
        },
    }
}

pub open spec fn sdec_remove_body(s: Seq<u8>, p_tag: int) -> RecParse {
    match spec_match_lit(s, p_tag, lit_rm_tag()) {
        LitMatch::Mismatch => RecParse::Corrupt,
        LitMatch::OutOfBytes => RecParse::Truncated,
        LitMatch::Found { end: p_key } => match sdec_str(s, p_key) {
            StrParse::Corrupt => RecParse::Corrupt,
            StrParse::Truncated => RecParse::Truncated,
            StrParse::Done { content: key, end: p_close } => match spec_match_lit(
                s,
                p_close,
                lit_obj_end(),
            ) {
                LitMatch::Mismatch => RecParse::Corrupt,
                LitMatch::OutOfBytes => RecParse::Truncated,
                LitMatch::Found { end } => RecParse::Parsed {
                    rec: RecordView::Remove { key },
                    end,
                },
            },
        },
    }
}

/// Equality of two byte vectors, decided byte by byte.
pub fn bytes_eq(a: &Vec<u8>, b: &Vec<u8>) -> (r: bool)
    ensures
        r <==> a@ == b@,
{
    if a.len() != b.len() {
        return false;
    }
    let mut i: usize = 0;
    while i < a.len()
        invariant
            i <= a@.len(),
            a@.len() == b@.len(),
            forall|j: int| 0 <= j < i ==> a@[j] == b@[j],
        decreases a@.len() - i,
    {
        if a[i] != b[i] {
            return false;
        }
        i = i + 1;
    }
    proof {
        assert(a@ =~= b@);
    }
    true
}

/// Escaping distributes over appending one byte.
pub proof fn lemma_esc_snoc(s: Seq<u8>, b: u8)
    ensures
        esc(s.push(b)) == esc(s) + esc_byte(b),
    decreases s.len(),
{
    if s.len() == 0 {
        assert(s.push(b).drop_first() =~= Seq::<u8>::empty());
        assert(esc(Seq::<u8>::empty()) =~= Seq::<u8>::empty());
        assert(esc(s.push(b)) =~= esc_byte(b));
        assert(esc(s) + esc_byte(b) =~= esc_byte(b));
    } else {
        lemma_esc_snoc(s.drop_first(), b);
        assert(s.push(b).drop_first() =~= s.drop_first().push(b));
        assert(esc_byte(s[0]) + (esc(s.drop_first()) + esc_byte(b)) =~= (esc_byte(s[0]) + esc(
            s.drop_first(),
        )) + esc_byte(b));
    }
}

fn hex_digit_exec(x: u8) -> (r: u8)
    requires
        x < 16,
    ensures
        r == hex_digit(x),
{
    if x < 10 {
        x + 48
    } else {
        x + 87
    }
}

fn lit_obj_start_vec() -> (v: Vec<u8>)
    ensures
        v@ == lit_obj_start(),
{
    let mut v: Vec<u8> = Vec::new();
    v.push(123);
    v.push(34);
    proof {
        assert(v@ =~= lit_obj_start());
    }
    v
}

fn lit_set_tag_vec() -> (v: Vec<u8>)
    ensures
        v@ == lit_set_tag(),
{
    let mut v: Vec<u8> = Vec::new();
    v.push(83);
    v.push(101);
    v.push(116);
    v.push(34);
    v.push(58);
    v.push(123);
    v.push(34);
    v.push(107);
    v.push(101);
    v.push(121);
    v.push(34);
    v.push(58);
    v.push(34);
    proof {
        assert(v@ =~= lit_set_tag());
    }
    v
}

fn lit_rm_tag_vec() -> (v: Vec<u8>)
    ensures
        v@ == lit_rm_tag(),
{
    let mut v: Vec<u8> = Vec::new();
    v.push(82);
    v.push(101);
    v.push(109);
    v.push(111);
    v.push(118);
    v.push(101);
    v.push(34);
    v.push(58);
    v.push(123);
    v.push(34);
    v.push(107);
    v.push(101);
    v.push(121);
    v.push(34);
    v.push(58);
    v.push(34);
    proof {
        assert(v@ =~= lit_rm_tag());
    }
    v
}

fn lit_value_sep_vec() -> (v: Vec<u8>)
    ensures
        v@ == lit_value_sep(),
{
    let mut v: Vec<u8> = Vec::new();
    v.push(44);
    v.push(34);
    v.push(118);
    v.push(97);
    v.push(108);
    v.push(117);
    v.push(101);
    v.push(34);
    v.push(58);
    v.push(34);
    proof {
        assert(v@ =~= lit_value_sep());
    }
    v
}

fn lit_obj_end_vec() -> (v: Vec<u8>)
    ensures
        v@ == lit_obj_end(),
{
    let mut v: Vec<u8> = Vec::new();
    v.push(125);
    v.push(125);
    proof {
        assert(v@ =~= lit_obj_end());
    }
    v
}

/// Append the escaped form of `s` to `out`.
fn esc_push(out: &mut Vec<u8>, s: &Vec<u8>)
    ensures
        final(out)@ == old(out)@ + esc(s@),
{
    let mut i: usize = 0;
    proof {
        assert(s@.take(0) =~= Seq::<u8>::empty());
        assert(out@ =~= out@ + esc(s@.take(0)));
    }
    while i < s.len()
        invariant
            i <= s@.len(),
            out@ == old(out)@ + esc(s@.take(i as int)),
        decreases s@.len() - i,
    {
        let b = s[i];
        if b == QUOTE {
            out.push(BACKSLASH);
            out.push(QUOTE);
        } else if b == BACKSLASH {
            out.push(BACKSLASH);
            out.push(BACKSLASH);
        } else if b < 32 {
            out.push(BACKSLASH);
            out.push(117);
            out.push(48);
            out.push(48);
            out.push(hex_digit_exec(b / 16));
            out.push(hex_digit_exec(b % 16));
        } else {
            out.push(b);
        }
        proof {
            lemma_esc_snoc(s@.take(i as int), s@[i as int]);
            assert(s@.take(i as int + 1) =~= s@.take(i as int).push(s@[i as int]));
            assert(out@ =~= old(out)@ + esc(s@.take(i as int + 1)));
        }
        i = i + 1;
    }
    proof {
        assert(s@.take(s@.len() as int) =~= s@);
    }
}

/// Serialize one record to its canonical byte encoding.
pub fn encode(r: &Record) -> (out: Vec<u8>)
    ensures
        out@ == enc_record(r@),
{
    let mut out: Vec<u8> = Vec::new();
    match r {
        Record::Put { key, value } => {
            let mut l = lit_obj_start_vec();
            out.append(&mut l);
            let mut l = lit_set_tag_vec();
            out.append(&mut l);
            esc_push(&mut out, key);
            out.push(QUOTE);
            let mut l = lit_value_sep_vec();
            out.append(&mut l);
            esc_push(&mut out, value);
            out.push(QUOTE);
            let mut l = lit_obj_end_vec();
            out.append(&mut l);
            proof {
                assert(out@ =~= enc_record(r@));
            }
        },
        Record::Remove { key } => {
            let mut l = lit_obj_start_vec();
            out.append(&mut l);
            let mut l = lit_rm_tag_vec();
            out.append(&mut l);
            esc_push(&mut out, key);
            out.push(QUOTE);
            let mut l = lit_obj_end_vec();
            out.append(&mut l);
            proof {
                assert(out@ =~= enc_record(r@));
            }
        },
    }
    out
}

/// Splitting: if a concatenation sits at `pos`, each part sits at its offset.
proof fn lemma_split_at(s: Seq<u8>, pos: int, a: Seq<u8>, b: Seq<u8>)
    requires
        0 <= pos,
        pos + a.len() + b.len() <= s.len(),
        s.subrange(pos, pos + a.len() + b.len()) == a + b,
    ensures
        s.subrange(pos, pos + a.len()) == a,
        s.subrange(pos + a.len(), pos + a.len() + b.len()) == b,
{
    assert forall|i: int| 0 <= i < a.len() implies s[pos + i] == a[i] by {
        assert((a + b)[i] == a[i]);
        assert(s.subrange(pos, pos + a.len() + b.len())[i] == s[pos + i]);
    }
    assert(s.subrange(pos, pos + a.len()) =~= a);
    assert forall|i: int| 0 <= i < b.len() implies s[pos + a.len() + i] == b[i] by {
        assert((a + b)[a.len() + i] == b[i]);
        assert(s.subrange(pos, pos + a.len() + b.len())[a.len() + i] == s[pos + a.len() + i]);
    }
    assert(s.subrange(pos + a.len(), pos + a.len() + b.len()) =~= b);
}

/// Joining: adjacent subranges concatenate.
proof fn lemma_join_at(s: Seq<u8>, pos: int, mid: int, end: int)
    requires
        0 <= pos <= mid <= end <= s.len(),
    ensures
        s.subrange(pos, end) == s.subrange(pos, mid) + s.subrange(mid, end),
{
    assert(s.subrange(pos, end) =~= s.subrange(pos, mid) + s.subrange(mid, end));
}

/// If the literal's bytes sit at `pos`, matching finds them.
proof fn lemma_match_lit_complete(s: Seq<u8>, pos: int, lit: Seq<u8>)
    requires
        0 <= pos,
        pos + lit.len() <= s.len(),
        s.subrange(pos, pos + lit.len()) == lit,
    ensures
        spec_match_lit(s, pos, lit) == (LitMatch::Found { end: pos + lit.len() }),
    decreases lit.len(),
{
    if lit.len() == 0 {
    } else {
        assert(s[pos] == s.subrange(pos, pos + lit.len())[0]);
        assert(s.subrange(pos + 1, pos + lit.len()) =~= lit.drop_first());
        lemma_match_lit_complete(s, pos + 1, lit.drop_first());
    }
}

/// A successful literal match found exactly the literal's bytes.
proof fn lemma_match_lit_sound(s: Seq<u8>, pos: int, lit: Seq<u8>)
    requires
        0 <= pos <= s.len(),
        spec_match_lit(s, pos, lit) is Found,
    ensures
        spec_match_lit(s, pos, lit) == (LitMatch::Found { end: pos + lit.len() }),
        pos + lit.len() <= s.len(),
        s.subrange(pos, pos + lit.len()) == lit,
    decreases lit.len(),
{
    if lit.len() == 0 {
        assert(s.subrange(pos, pos) =~= lit);
    } else {
        lemma_match_lit_sound(s, pos + 1, lit.drop_first());
        assert forall|i: int| 0 <= i < lit.len() implies s.subrange(pos, pos + lit.len())[i]
            == lit[i] by {
            if i == 0 {
            } else {
                assert(s.subrange(pos + 1, pos + lit.len())[i - 1] == lit.drop_first()[i - 1]);
            }
        }
        assert(s.subrange(pos, pos + lit.len()) =~= lit);
    }
}

/// An encoded string at `pos` parses back to exactly its content.
proof fn lemma_dec_enc_str(s: Seq<u8>, pos: int, content: Seq<u8>)
    requires
        0 <= pos,
        pos + enc_str(content).len() <= s.len(),
        s.subrange(pos, pos + enc_str(content).len()) == enc_str(content),
    ensures
        sdec_str(s, pos) == (StrParse::Done { content, end: pos + enc_str(content).len() }),
    decreases content.len(),
{
    let n = enc_str(content).len() as int;
    if content.len() == 0 {
        assert(content =~= Seq::<u8>::empty());
        assert(esc(content) == Seq::<u8>::empty());
        assert(enc_str(content) =~= seq![QUOTE]);
        assert(s[pos] == s.subrange(pos, pos + 1)[0]);
        assert(sdec_str(s, pos) == (StrParse::Done { content, end: pos + 1 }));
    } else {
        let b = content[0];
        let rest = content.drop_first();
        let eb = esc_byte(b);
        assert(enc_str(content) =~= eb + enc_str(rest));
        lemma_split_at(s, pos, eb, enc_str(rest));
        assert forall|i: int| 0 <= i < eb.len() implies s[pos + i] == eb[i] by {
            assert(s.subrange(pos, pos + eb.len())[i] == s[pos + i]);
        }
        lemma_dec_enc_str(s, pos + eb.len(), rest);
        assert(content =~= seq![b] + rest);
        if b == QUOTE || b == BACKSLASH {
            assert(s[pos] == BACKSLASH && s[pos + 1] == b);
            assert(sdec_str(s, pos) == (StrParse::Done { content, end: pos + n }));
        } else if b < 32 {
            vstd::arithmetic::div_mod::lemma_fundamental_div_mod(b as int, 16);
            assert(b / 16 < 16 && b % 16 < 16);
            assert(is_hex_digit(hex_digit(b / 16)));
            assert(is_hex_digit(hex_digit(b % 16)));
            assert(hex_val(hex_digit(b / 16)) == b / 16);
            assert(hex_val(hex_digit(b % 16)) == b % 16);
            assert(16 * hex_val(s[pos + 4]) + hex_val(s[pos + 5]) == b);
            assert(sdec_str(s, pos) == (StrParse::Done { content, end: pos + n }));
        } else {
            assert(s[pos] == b);
            assert(sdec_str(s, pos) == (StrParse::Done { content, end: pos + n }));
        }
    }
}

/// A successful string parse consumed exactly the canonical encoding of its
/// content.
proof fn lemma_sdec_str_sound(s: Seq<u8>, pos: int)
    requires
        0 <= pos,
        sdec_str(s, pos) is Done,
    ensures
        ({
            let r = sdec_str(s, pos);
            &&& pos < r->end <= s.len()
            &&& s.subrange(pos, r->end) == enc_str(r->content)
        }),
    decreases s.len() - pos,
{
    let r = sdec_str(s, pos);
    let end = r->end;
    let content = r->content;
    if s[pos] == QUOTE {
        assert(s.subrange(pos, pos + 1) =~= enc_str(content));
    } else if s[pos] == BACKSLASH {
        if s[pos + 1] == QUOTE || s[pos + 1] == BACKSLASH {
            let d = s[pos + 1];
            let inner = sdec_str(s, pos + 2);
            lemma_sdec_str_sound(s, pos + 2);
            assert(content =~= seq![d] + inner->content);
            assert(content[0] == d && content.drop_first() =~= inner->content);
            assert(esc(content) =~= esc_byte(d) + esc(inner->content));
            lemma_join_at(s, pos, pos + 2, end);
            assert(s.subrange(pos, pos + 2) =~= esc_byte(d));
            assert(s.subrange(pos, end) =~= enc_str(content));
        } else {
            // the \u00xy escape
            let h1 = s[pos + 4];
            let h2 = s[pos + 5];
            let d = (16 * hex_val(h1) + hex_val(h2)) as u8;
            let inner = sdec_str(s, pos + 6);
            lemma_sdec_str_sound(s, pos + 6);
            assert(content =~= seq![d] + inner->content);
            assert(content[0] == d && content.drop_first() =~= inner->content);
            assert(esc(content) =~= esc_byte(d) + esc(inner->content));
            vstd::arithmetic::div_mod::lemma_fundamental_div_mod(d as int, 16);
            assert(d / 16 == hex_val(h1) && d % 16 == hex_val(h2));
            assert(hex_digit((d / 16) as u8) == h1 && hex_digit((d % 16) as u8) == h2);
            assert(esc_byte(d) =~= seq![BACKSLASH, 117u8, 48u8, 48u8, h1, h2]);
            lemma_join_at(s, pos, pos + 6, end);
            assert(s.subrange(pos, pos + 6) =~= esc_byte(d));
            assert(s.subrange(pos, end) =~= enc_str(content));
        }
    } else {
        let d = s[pos];
        let inner = sdec_str(s, pos + 1);
        lemma_sdec_str_sound(s, pos + 1);
        assert(content =~= seq![d] + inner->content);
        assert(content[0] == d && content.drop_first() =~= inner->content);
        assert(esc(content) =~= esc_byte(d) + esc(inner->content));
        lemma_join_at(s, pos, pos + 1, end);
        assert(s.subrange(pos, pos + 1) =~= esc_byte(d));
        assert(s.subrange(pos, end) =~= enc_str(content));
    }
}

/// An encoded record at `pos` parses back to exactly that record: encoding
/// then decoding is the identity, whatever follows the record.
pub proof fn lemma_dec_enc_record(s: Seq<u8>, pos: int, r: RecordView)
    requires
        0 <= pos,
        pos + enc_record(r).len() <= s.len(),
        s.subrange(pos, pos + enc_record(r).len()) == enc_record(r),
    ensures
        sdec_record(s, pos) == (RecParse::Parsed { rec: r, end: pos + enc_record(r).len() }),
{
    let n = enc_record(r).len() as int;
    match r {
        RecordView::Put { key, value } => {
            let a = lit_obj_start();
            let b = lit_set_tag();
            let c = enc_str(key);
            let d = lit_value_sep();
            let e = enc_str(value);
            let f = lit_obj_end();
            assert(enc_record(r) =~= a + (b + (c + (d + (e + f)))));
            lemma_split_at(s, pos, a, b + (c + (d + (e + f))));
            lemma_match_lit_complete(s, pos, a);
            let p1 = pos + a.len() as int;
            lemma_split_at(s, p1, b, c + (d + (e + f)));
            lemma_match_lit_complete(s, p1, b);
            assert(s[p1] == s.subrange(p1, p1 + b.len())[0]);
            let p2 = p1 + b.len() as int;
            lemma_split_at(s, p2, c, d + (e + f));
            lemma_dec_enc_str(s, p2, key);
            let p3 = p2 + c.len() as int;
            lemma_split_at(s, p3, d, e + f);
            lemma_match_lit_complete(s, p3, d);
            let p4 = p3 + d.len() as int;
            lemma_split_at(s, p4, e, f);
            lemma_dec_enc_str(s, p4, value);
            let p5 = p4 + e.len() as int;
            lemma_match_lit_complete(s, p5, f);
        },
        RecordView::Remove { key } => {
            let a = lit_obj_start();
            let b = lit_rm_tag();
            let c = enc_str(key);
            let f = lit_obj_end();
            assert(enc_record(r) =~= a + (b + (c + f)));
            lemma_split_at(s, pos, a, b + (c + f));
            lemma_match_lit_complete(s, pos, a);
            let p1 = pos + a.len() as int;
            lemma_split_at(s, p1, b, c + f);
            lemma_match_lit_complete(s, p1, b);
            assert(s[p1] == s.subrange(p1, p1 + b.len())[0]);
            let p2 = p1 + b.len() as int;
            lemma_split_at(s, p2, c, f);
            lemma_dec_enc_str(s, p2, key);
            let p3 = p2 + c.len() as int;
            lemma_match_lit_complete(s, p3, f);
        },
    }
}

/// A successful record parse consumed exactly the canonical encoding of the
/// record it returned: every parsed record re-encodes to the bytes it came
/// from.
pub proof fn lemma_sdec_record_sound(s: Seq<u8>, pos: int)
    requires
        0 <= pos <= s.len(),
        sdec_record(s, pos) is Parsed,
    ensures
        ({
            let r = sdec_record(s, pos);
            &&& pos < r->end <= s.len()
            &&& s.subrange(pos, r->end) == enc_record(r->rec)
        }),
{
    let r = sdec_record(s, pos);
    let end = r->end;
    let a = lit_obj_start();
    lemma_match_lit_sound(s, pos, a);
    let p1 = pos + a.len() as int;
    if s[p1] == 83 {
        let b = lit_set_tag();
        lemma_match_lit_sound(s, p1, b);
        let p2 = p1 + b.len() as int;
        lemma_sdec_str_sound(s, p2);
        let key_parse = sdec_str(s, p2);
        let p3 = key_parse->end;
        lemma_match_lit_sound(s, p3, lit_value_sep());
        let p4 = p3 + lit_value_sep().len() as int;
        lemma_sdec_str_sound(s, p4);
        let val_parse = sdec_str(s, p4);
        let p5 = val_parse->end;
        lemma_match_lit_sound(s, p5, lit_obj_end());
        lemma_join_at(s, pos, p1, p2);
        lemma_join_at(s, pos, p2, p3);
        lemma_join_at(s, pos, p3, p4);
        lemma_join_at(s, pos, p4, p5);
        lemma_join_at(s, pos, p5, end);
        assert(s.subrange(pos, end) == enc_record(r->rec));
    } else {
        let b = lit_rm_tag();
        lemma_match_lit_sound(s, p1, b);
        let p2 = p1 + b.len() as int;
        lemma_sdec_str_sound(s, p2);
        let key_parse = sdec_str(s, p2);
        let p3 = key_parse->end;
        lemma_match_lit_sound(s, p3, lit_obj_end());
        lemma_join_at(s, pos, p1, p2);
        lemma_join_at(s, pos, p2, p3);
        lemma_join_at(s, pos, p3, end);
        assert(s.subrange(pos, end) == enc_record(r->rec));
    }
}

enum MatchResult {
    Found { end: usize },
    Mismatch,
    OutOfBytes,
}

fn match_lit(s: &Vec<u8>, pos: usize, lit: &Vec<u8>) -> (r: MatchResult)
    ensures
        ({
            let m = spec_match_lit(s@, pos as int, lit@);
            match r {
                MatchResult::Found { end } => m == (LitMatch::Found { end: end as int }),
                MatchResult::Mismatch => m is Mismatch,
                MatchResult::OutOfBytes => m is OutOfBytes,
            }
        }),
{
    let mut i: usize = 0;
    proof {
        assert(lit@.skip(0) =~= lit@);
    }
    while i < lit.len()
        invariant
            i <= lit@.len(),
            i > 0 ==> pos + i <= s@.len(),
            spec_match_lit(s@, pos as int, lit@) == spec_match_lit(
                s@,
                pos + i,
                lit@.skip(i as int),
            ),
        decreases lit@.len() - i,
    {
        if pos >= s.len() || i >= s.len() - pos {
            return MatchResult::OutOfBytes;
        }
        if s[pos + i] != lit[i] {
            assert(lit@.skip(i as int)[0] == lit@[i as int]);
            return MatchResult::Mismatch;
        }
        proof {
            assert(lit@.skip(i as int)[0] == lit@[i as int]);
            assert(lit@.skip(i as int).drop_first() =~= lit@.skip(i as int + 1));
        }
        i = i + 1;
    }
    proof {
        assert(lit@.skip(i as int) =~= Seq::<u8>::empty());
    }
    if i == 0 {
        return MatchResult::Found { end: pos };
    }
    // the match walked bytes of `s`, so the end position fits in a length
    let n = s.len();
    proof {
        assert(pos + i <= n);
    }
    MatchResult::Found { end: pos + i }
}

fn is_hex_digit_exec(b: u8) -> (r: bool)
    ensures
        r == is_hex_digit(b),
{
    (48 <= b && b <= 57) || (97 <= b && b <= 102)
}

fn hex_val_exec(b: u8) -> (r: u8)
    requires
        is_hex_digit(b),
    ensures
        r as int == hex_val(b),
        r <= 15,
{
    if b <= 57 {
        b - 48
    } else {
        b - 87
    }
}

/// Parse string content from `pos`, pushing the decoded bytes onto `out`.
fn dec_str(s: &Vec<u8>, pos: usize, out: &mut Vec<u8>) -> (r: Result<usize, KvError>)
    ensures
        ({
            match sdec_str(s@, pos as int) {
                StrParse::Done { content, end } => r matches Ok(e) && e == end && final(out)@
                    == old(out)@ + content,
                StrParse::Corrupt => r matches Err(KvError::CorruptRecord),
                StrParse::Truncated => r matches Err(KvError::TruncatedRecord),
            }
        }),
    decreases s@.len() - pos,
{
    if pos >= s.len() {
        return Err(KvError::TruncatedRecord);
    }
    let b = s[pos];
    if b == QUOTE {
        proof {
            assert(old(out)@ + Seq::<u8>::empty() =~= old(out)@);
        }
        Ok(pos + 1)
    } else if b == BACKSLASH {
        if s.len() - pos <= 1 {
            return Err(KvError::TruncatedRecord);
        }
        let e = s[pos + 1];
        if e == QUOTE || e == BACKSLASH {
            out.push(e);
            let r = dec_str(s, pos + 2, out);
            proof {
                if let StrParse::Done { content, end } = sdec_str(s@, pos as int + 2) {
                    assert(old(out)@.push(e) + content =~= old(out)@ + (seq![e] + content));
                }
            }
            r
        } else if e == 117 {
            if s.len() - pos <= 5 {
                return Err(KvError::TruncatedRecord);
            }
            if s[pos + 2] == 48 && s[pos + 3] == 48 && is_hex_digit_exec(s[pos + 4])
                && is_hex_digit_exec(s[pos + 5]) {
                let d = 16 * hex_val_exec(s[pos + 4]) + hex_val_exec(s[pos + 5]);
                if d < 32 {
                    out.push(d);
                    let r = dec_str(s, pos + 6, out);
                    proof {
                        if let StrParse::Done { content, end } = sdec_str(s@, pos as int + 6) {
                            assert(old(out)@.push(d) + content =~= old(out)@ + (seq![d]
                                + content));
                        }
                    }
                    r
                } else {
                    Err(KvError::CorruptRecord)
                }
            } else {
                Err(KvError::CorruptRecord)
            }
        } else {
            Err(KvError::CorruptRecord)
        }
    } else if b < 32 {
        Err(KvError::CorruptRecord)
    } else {
        out.push(b);
        let r = dec_str(s, pos + 1, out);
        proof {
            if let StrParse::Done { content, end } = sdec_str(s@, pos as int + 1) {
                assert(old(out)@.push(b) + content =~= old(out)@ + (seq![b] + content));
            }
        }
        r
    }
}

/// Parse one record from `pos`.  On success the returned position is just
/// past the record; the bytes in between are exactly the record's canonical
/// encoding.
pub fn decode(s: &Vec<u8>, pos: usize) -> (r: Result<(Record, usize), KvError>)
    ensures
        ({
            match sdec_record(s@, pos as int) {
                RecParse::Parsed { rec, end } => r matches Ok(p) && p.0@ == rec && p.1 == end
                    && pos < end <= s@.len(),
                RecParse::Corrupt => r matches Err(KvError::CorruptRecord),
                RecParse::Truncated => r matches Err(KvError::TruncatedRecord),
            }
        }),
{
    let start = lit_obj_start_vec();
    let p_tag = match match_lit(s, pos, &start) {
        MatchResult::Mismatch => {
            return Err(KvError::CorruptRecord);
        },
        MatchResult::OutOfBytes => {
            return Err(KvError::TruncatedRecord);
        },
        MatchResult::Found { end } => end,
    };
    if p_tag >= s.len() {
        return Err(KvError::TruncatedRecord);
    }
    if s[p_tag] == 83 {
        let tag = lit_set_tag_vec();
        let p_key = match match_lit(s, p_tag, &tag) {
            MatchResult::Mismatch => {
                return Err(KvError::CorruptRecord);
            },
            MatchResult::OutOfBytes => {
                return Err(KvError::TruncatedRecord);
            },
            MatchResult::Found { end } => end,
        };
        let mut key: Vec<u8> = Vec::new();
        let p_sep = match dec_str(s, p_key, &mut key) {
            Err(e) => {
                return Err(e);
            },
            Ok(e) => e,
        };
        let sep = lit_value_sep_vec();
        let p_val = match match_lit(s, p_sep, &sep) {
            MatchResult::Mismatch => {
                return Err(KvError::CorruptRecord);
            },
            MatchResult::OutOfBytes => {
                return Err(KvError::TruncatedRecord);
            },
            MatchResult::Found { end } => end,
        };
        let mut value: Vec<u8> = Vec::new();
        let p_close = match dec_str(s, p_val, &mut value) {
            Err(e) => {
                return Err(e);
            },
            Ok(e) => e,
        };
        let close = lit_obj_end_vec();
        let end = match match_lit(s, p_close, &close) {
            MatchResult::Mismatch => {
                return Err(KvError::CorruptRecord);
            },
            MatchResult::OutOfBytes => {
                return Err(KvError::TruncatedRecord);
            },
            MatchResult::Found { end } => end,
        };
        proof {
            lemma_sdec_record_sound(s@, pos as int);
        }
        Ok((Record::Put { key, value }, end))
    } else if s[p_tag] == 82 {
        let tag = lit_rm_tag_vec();
        let p_key = match match_lit(s, p_tag, &tag) {
            MatchResult::Mismatch => {
                return Err(KvError::CorruptRecord);
            },
            MatchResult::OutOfBytes => {
                return Err(KvError::TruncatedRecord);
            },
            MatchResult::Found { end } => end,
        };
        let mut key: Vec<u8> = Vec::new();
        let p_close = match dec_str(s, p_key, &mut key) {
            Err(e) => {
                return Err(e);
            },
            Ok(e) => e,
        };
        let close = lit_obj_end_vec();
        let end = match match_lit(s, p_close, &close) {
            MatchResult::Mismatch => {
                return Err(KvError::CorruptRecord);
            },
            MatchResult::OutOfBytes => {
                return Err(KvError::TruncatedRecord);
            },
            MatchResult::Found { end } => end,
        };
        proof {
            lemma_sdec_record_sound(s@, pos as int);
        }
        Ok((Record::Remove { key }, end))
    } else {
        Err(KvError::CorruptRecord)
    }
}

} // verus!
