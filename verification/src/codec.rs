use vstd::prelude::*;

verus! {

use vstd::string::StrSliceExecFns;
use vstd::string::StringExecFns;
use crate::event::Event;
use crate::hexutil::hex_char;
use crate::hexutil::hex_val;
use crate::hexutil::hex_of;
use crate::hexutil::is_lower_hex_char;
use crate::text::string_push;

/// Decimal rendering of a natural number, most significant digit first.
pub open spec fn dec_of(n: nat) -> Seq<char>
    decreases n,
{
    if n < 10 {
        seq![hex_char(n as u8)]
    } else {
        dec_of(n / 10).push(hex_char((n % 10) as u8))
    }
}

pub open spec fn is_digit_char(c: char) -> bool {
    hex_val(c) < 10
}

/// Value of a run of decimal digits.
pub open spec fn dec_val(d: Seq<char>) -> nat
    decreases d.len(),
{
    if d.len() == 0 {
        0
    } else {
        (dec_val(d.drop_last()) * 10 + hex_val(d.last())) as nat
    }
}

/// JSON escaping of one character: quote and backslash get a backslash,
/// control characters become a `\u00XX` sequence, all else is verbatim.
pub open spec fn esc_char(c: char) -> Seq<char> {
    if c == '"' {
        seq!['\\', '"']
    } else if c == '\\' {
        seq!['\\', '\\']
    } else if (c as u32) < 32 {
        seq!['\\', 'u', '0', '0', hex_char(((c as u32) / 16) as u8), hex_char(((c as u32) % 16) as u8)]
    } else {
        seq![c]
    }
}

pub open spec fn esc(s: Seq<char>) -> Seq<char>
    decreases s.len(),
{
    if s.len() == 0 {
        Seq::empty()
    } else {
        esc_char(s[0]) + esc(s.drop_first())
    }
}

/// The canonical JSON rendering of an event.
pub open spec fn spec_render(e: Event) -> Seq<char> {
    ("{\"id\":\"")@ + hex_of(e.id@) + ("\",\"pubkey\":\"")@ + e.pubkey@ + ("\",\"kind\":")@
        + dec_of(e.kind as nat) + (",\"created_at\":")@ + dec_of(e.created_at as nat)
        + (",\"content\":\"")@ + esc(e.content@) + ("\"}")@
}

pub proof fn lemma_esc_push(s: Seq<char>, c: char)
    ensures
        esc(s.push(c)) == esc(s) + esc_char(c),
    decreases s.len(),
{
    if s.len() == 0 {
        assert(s.push(c)[0] == c);
        assert(s.push(c).drop_first() =~= Seq::<char>::empty());
        assert(esc(s.push(c)) =~= esc_char(c) + esc(Seq::<char>::empty()));
        assert(esc(s) + esc_char(c) =~= esc_char(c));
        assert(esc(s.push(c)) =~= esc_char(c));
    } else {
        assert(s.push(c).drop_first() =~= s.drop_first().push(c));
        lemma_esc_push(s.drop_first(), c);
        assert(esc(s.push(c)) == esc_char(s[0]) + esc(s.drop_first().push(c)));
        assert(esc(s.push(c)) =~= esc(s) + esc_char(c));
    }
}

pub fn push_dec(s: &mut String, n: u64)
    ensures
        final(s)@ == old(s)@ + dec_of(n as nat),
    decreases n,
{
    if n < 10 {
        string_push(s, crate::hexutil::hex_char_exec(n as u8));
        proof {
            assert(old(s)@ + dec_of(n as nat) =~= old(s)@.push(hex_char(n as u8)));
        }
    } else {
        push_dec(s, n / 10);
        string_push(s, crate::hexutil::hex_char_exec((n % 10) as u8));
        proof {
            assert(old(s)@ + dec_of(n as nat) =~= (old(s)@ + dec_of((n / 10) as nat)).push(
                hex_char((n % 10) as u8)));
        }
    }
}

pub fn push_escaped(s: &mut String, content: &str)
    ensures
        final(s)@ == old(s)@ + esc(content@),
{
    let n = content.unicode_len();
    let mut i: usize = 0;
    while i < n
        invariant
            content@.len() == n,
            i <= n,
            s@ == old(s)@ + esc(content@.take(i as int)),
        decreases n - i,
    {
        let c = content.get_char(i);
        if c == '"' {
            string_push(s, '\\');
            string_push(s, '"');
        } else if c == '\\' {
            string_push(s, '\\');
            string_push(s, '\\');
        } else if (c as u32) < 32 {
            let code = c as u32;
            string_push(s, '\\');
            string_push(s, 'u');
            string_push(s, '0');
            string_push(s, '0');
            string_push(s, crate::hexutil::hex_char_exec((code / 16) as u8));
            string_push(s, crate::hexutil::hex_char_exec((code % 16) as u8));
        } else {
            string_push(s, c);
        }
        proof {
            let t0 = content@.take(i as int);
            let t1 = content@.take(i + 1);
            assert(t1 =~= t0.push(c));
            lemma_esc_push(t0, c);
            assert(s@ =~= old(s)@ + esc(t1));
        }
        i = i + 1;
    }
    proof {
        assert(content@.take(n as int) =~= content@);
    }
}

/// The attribute values a parse recovers, as mathematical values.
pub struct EventFields {
    pub id: Seq<u8>,
    pub pubkey: Seq<char>,
    pub kind: nat,
    pub created_at: nat,
    pub content: Seq<char>,
}

/// Consume an expected literal.
pub open spec fn sp_lit(s: Seq<char>, lit: Seq<char>) -> Option<Seq<char>> {
    if lit.len() <= s.len() && s.take(lit.len() as int) == lit {
        Some(s.skip(lit.len() as int))
    } else {
        None
    }
}

/// Consume exactly `n` bytes written as lower-case hex pairs.
pub open spec fn sp_hexn(s: Seq<char>, n: nat) -> Option<(Seq<u8>, Seq<char>)>
    decreases n,
{
    if n == 0 {
        Some((Seq::empty(), s))
    } else if s.len() >= 2 && is_lower_hex_char(s[0]) && is_lower_hex_char(s[1]) {
        match sp_hexn(s.skip(2), (n - 1) as nat) {
            Some(p) => Some((seq![(hex_val(s[0]) * 16 + hex_val(s[1])) as u8] + p.0, p.1)),
            None => None,
        }
    } else {
        None
    }
}

/// Split off the leading run of decimal digits.
pub open spec fn sp_digits(s: Seq<char>) -> (Seq<char>, Seq<char>)
    decreases s.len(),
{
    if s.len() == 0 || !is_digit_char(s[0]) {
        (Seq::empty(), s)
    } else {
        let p = sp_digits(s.drop_first());
        (seq![s[0]] + p.0, p.1)
    }
}

/// Consume a decimal number of one to twenty digits.
pub open spec fn sp_dec(s: Seq<char>) -> Option<(nat, Seq<char>)> {
    let p = sp_digits(s);
    if 1 <= p.0.len() <= 20 {
        Some((dec_val(p.0), p.1))
    } else {
        None
    }
}

/// Consume characters up to and including a closing quote, no escapes.
pub open spec fn sp_until_quote(s: Seq<char>) -> Option<(Seq<char>, Seq<char>)>
    decreases s.len(),
{
    if s.len() == 0 {
        None
    } else if s[0] == '"' {
        Some((Seq::empty(), s.skip(1)))
    } else {
        match sp_until_quote(s.drop_first()) {
            Some(p) => Some((seq![s[0]] + p.0, p.1)),
            None => None,
        }
    }
}

/// Consume an escaped string body up to and including its closing quote.
pub open spec fn sp_string(s: Seq<char>) -> Option<(Seq<char>, Seq<char>)>
    decreases s.len(),
{
    if s.len() == 0 {
        None
    } else if s[0] == '"' {
        Some((Seq::empty(), s.skip(1)))
    } else if s[0] == '\\' {
        if s.len() >= 2 && (s[1] == '"' || s[1] == '\\') {
            match sp_string(s.skip(2)) {
                Some(p) => Some((seq![s[1]] + p.0, p.1)),
                None => None,
            }
        } else if s.len() >= 6 && s[1] == 'u' && s[2] == '0' && s[3] == '0'
            && is_lower_hex_char(s[4]) && is_lower_hex_char(s[5]) && hex_val(s[4]) * 16 + hex_val(
            s[5],
        ) < 32 {
            match sp_string(s.skip(6)) {
                Some(p) => Some(
                    (seq![((hex_val(s[4]) * 16 + hex_val(s[5])) as u8) as char] + p.0, p.1),
                ),
                None => None,
            }
        } else {
            None
        }
    } else {
        match sp_string(s.drop_first()) {
            Some(p) => Some((seq![s[0]] + p.0, p.1)),
            None => None,
        }
    }
}

/// Parse a whole canonical event object; `None` unless the entire
/// input is one well-formed rendering.
pub open spec fn sp_event(s: Seq<char>) -> Option<EventFields> {
    match sp_lit(s, ("{\"id\":\"")@) {
        None => None,
        Some(s1) => match sp_hexn(s1, 32) {
            None => None,
            Some(p_id) => match sp_lit(p_id.1, ("\",\"pubkey\":\"")@) {
                None => None,
                Some(s2) => match sp_until_quote(s2) {
                    None => None,
                    Some(p_pk) => match sp_lit(p_pk.1, (",\"kind\":")@) {
                        None => None,
                        Some(s3) => match sp_dec(s3) {
                            None => None,
                            Some(p_kind) => if p_kind.0 > 65535 {
                                None
                            } else {
                                match sp_lit(p_kind.1, (",\"created_at\":")@) {
                                    None => None,
                                    Some(s4) => match sp_dec(s4) {
                                        None => None,
                                        Some(p_ts) => if p_ts.0 > u64::MAX {
                                            None
                                        } else {
                                            match sp_lit(p_ts.1, (",\"content\":\"")@) {
                                                None => None,
                                                Some(s5) => match sp_string(s5) {
                                                    None => None,
                                                    Some(p_ct) => match sp_lit(p_ct.1, ("}")@) {
                                                        None => None,
                                                        Some(s6) => if s6.len() == 0 {
                                                            Some(
                                                                EventFields {
                                                                    id: p_id.0,
                                                                    pubkey: p_pk.0,
                                                                    kind: p_kind.0,
                                                                    created_at: p_ts.0,
                                                                    content: p_ct.0,
                                                                },
                                                            )
                                                        } else {
                                                            None
                                                        },
                                                    },
                                                },
                                            }
                                        },
                                    },
                                }
                            },
                        },
                    },
                },
            },
        },
    }
}

/// Render an event as its canonical JSON object.
pub fn render_event(e: &Event) -> (r: String)
    ensures
        r@ == spec_render(*e),
{
    let mut s = String::new();
    s.append("{\"id\":\"");
    let idh = crate::hexutil::hex_encode(&e.id);
    s.append(idh.as_str());
    s.append("\",\"pubkey\":\"");
    s.append(e.pubkey.as_str());
    s.append("\",\"kind\":");
    push_dec(&mut s, e.kind as u64);
    s.append(",\"created_at\":");
    push_dec(&mut s, e.created_at);
    s.append(",\"content\":\"");
    push_escaped(&mut s, e.content.as_str());
    s.append("\"}");
    proof {
        assert(s@ =~= spec_render(*e));
    }
    s
}

pub open spec fn pow10(k: nat) -> nat
    decreases k,
{
    if k == 0 {
        1
    } else {
        10 * pow10((k - 1) as nat)
    }
}

pub proof fn lemma_pow10_20()
    ensures
        pow10(20) == 100000000000000000000,
{
    assert(pow10(0) == 1);
    assert(pow10(1) == 10);
    assert(pow10(2) == 100);
    assert(pow10(3) == 1000);
    assert(pow10(4) == 10000);
    assert(pow10(5) == 100000);
    assert(pow10(6) == 1000000);
    assert(pow10(7) == 10000000);
    assert(pow10(8) == 100000000);
    assert(pow10(9) == 1000000000);
    assert(pow10(10) == 10000000000);
    assert(pow10(11) == 100000000000);
    assert(pow10(12) == 1000000000000);
    assert(pow10(13) == 10000000000000);
    assert(pow10(14) == 100000000000000);
    assert(pow10(15) == 1000000000000000);
    assert(pow10(16) == 10000000000000000);
    assert(pow10(17) == 100000000000000000);
    assert(pow10(18) == 1000000000000000000);
    assert(pow10(19) == 10000000000000000000);
    assert(pow10(20) == 100000000000000000000);
}

pub proof fn lemma_sp_lit(lit: Seq<char>, rest: Seq<char>)
    ensures
        sp_lit(lit + rest, lit) == Some(rest),
{
    assert((lit + rest).take(lit.len() as int) =~= lit);
    assert((lit + rest).skip(lit.len() as int) =~= rest);
}

pub proof fn lemma_sp_hexn(b: Seq<u8>, rest: Seq<char>)
    ensures
        sp_hexn(hex_of(b) + rest, b.len()) == Some((b, rest)),
    decreases b.len(),
{
    let s = hex_of(b) + rest;
    if b.len() == 0 {
        assert(s =~= rest);
    } else {
        assert(s[0] == hex_char(b[0] / 16));
        assert(s[1] == hex_char(b[0] % 16));
        crate::hexutil::lemma_hex_char_val(b[0] / 16);
        crate::hexutil::lemma_hex_char_val(b[0] % 16);
        let b0 = (hex_val(s[0]) * 16 + hex_val(s[1])) as u8;
        assert(b0 == 16 * (b[0] / 16) + b[0] % 16);
        assert(b0 == b[0]);
        let btail = b.drop_first();
        assert(s.skip(2) =~= hex_of(btail) + rest) by {
            assert forall|j: int| 0 <= j < s.skip(2).len() implies s.skip(2)[j] == (hex_of(btail)
                + rest)[j] by {
                if j < 2 * btail.len() {
                    assert(s.skip(2)[j] == hex_of(b)[j + 2]);
                    assert((j + 2) / 2 == j / 2 + 1);
                    assert(btail[j / 2] == b[j / 2 + 1]);
                } else {
                    assert(s.skip(2)[j] == rest[j - 2 * btail.len()]);
                }
            }
        }
        lemma_sp_hexn(btail, rest);
        assert(seq![b[0]] + btail =~= b);
    }
}

pub proof fn lemma_dec_of_digits(n: nat)
    ensures
        dec_of(n).len() >= 1,
        forall|i: int| 0 <= i < dec_of(n).len() ==> is_digit_char(#[trigger] dec_of(n)[i]),
    decreases n,
{
    if n < 10 {
        crate::hexutil::lemma_hex_char_val(n as u8);
    } else {
        lemma_dec_of_digits(n / 10);
        crate::hexutil::lemma_hex_char_val((n % 10) as u8);
        assert forall|i: int| 0 <= i < dec_of(n).len() implies is_digit_char(
            #[trigger] dec_of(n)[i],
        ) by {
            if i < dec_of(n / 10).len() {
                assert(dec_of(n)[i] == dec_of(n / 10)[i]);
            } else {
                assert(dec_of(n)[i] == hex_char((n % 10) as u8));
            }
        }
    }
}

pub proof fn lemma_dec_of_len(n: nat, k: nat)
    requires
        k >= 1,
        n < pow10(k),
    ensures
        dec_of(n).len() <= k,
    decreases k,
{
    if n < 10 {
    } else {
        assert(k >= 2) by {
            if k == 1 {
                assert(pow10(0nat) == 1);
                assert(pow10(1nat) == 10);
            }
        }
        assert(n / 10 < pow10((k - 1) as nat)) by {
            assert(pow10(k) == 10 * pow10((k - 1) as nat));
            assert(n < 10 * pow10((k - 1) as nat));
        }
        lemma_dec_of_len(n / 10, (k - 1) as nat);
    }
}

pub proof fn lemma_dec_val_of(n: nat)
    ensures
        dec_val(dec_of(n)) == n,
    decreases n,
{
    if n < 10 {
        let d = dec_of(n);
        assert(d.last() == hex_char(n as u8));
        crate::hexutil::lemma_hex_char_val(n as u8);
        assert(d.drop_last() =~= Seq::<char>::empty());
        assert(dec_val(Seq::<char>::empty()) == 0);
        assert(dec_val(d.drop_last()) == 0);
        assert(dec_val(d) == 0 * 10 + hex_val(d.last()));
    } else {
        lemma_dec_val_of(n / 10);
        let d = dec_of(n);
        assert(d.drop_last() =~= dec_of(n / 10));
        assert(dec_val(d.drop_last()) == dec_val(dec_of(n / 10)));
        assert(d.last() == hex_char((n % 10) as u8));
        crate::hexutil::lemma_hex_char_val((n % 10) as u8);
        assert(dec_val(d) == (n / 10) * 10 + n % 10);
        assert((n / 10) * 10 + n % 10 == n);
    }
}

pub proof fn lemma_sp_digits_concat(d: Seq<char>, rest: Seq<char>)
    requires
        forall|i: int| 0 <= i < d.len() ==> is_digit_char(#[trigger] d[i]),
        rest.len() > 0 ==> !is_digit_char(rest[0]),
    ensures
        sp_digits(d + rest) == (d, rest),
    decreases d.len(),
{
    let s = d + rest;
    if d.len() == 0 {
        assert(s =~= rest);
        if rest.len() == 0 {
        } else {
            assert(!is_digit_char(s[0]));
        }
        assert(sp_digits(s).0 =~= d);
    } else {
        assert(is_digit_char(s[0]));
        assert(s.drop_first() =~= d.drop_first() + rest);
        lemma_sp_digits_concat(d.drop_first(), rest);
        assert(sp_digits(s).0 =~= seq![d[0]] + d.drop_first());
        assert(seq![d[0]] + d.drop_first() =~= d);
    }
}

pub proof fn lemma_sp_dec(n: nat, rest: Seq<char>)
    requires
        n <= u64::MAX,
        rest.len() > 0 ==> !is_digit_char(rest[0]),
    ensures
        sp_dec(dec_of(n) + rest) == Some((n, rest)),
{
    lemma_dec_of_digits(n);
    lemma_sp_digits_concat(dec_of(n), rest);
    lemma_pow10_20();
    assert(n < pow10(20));
    lemma_dec_of_len(n, 20);
    lemma_dec_val_of(n);
}

pub proof fn lemma_sp_until_quote(p: Seq<char>, rest: Seq<char>)
    requires
        forall|i: int| 0 <= i < p.len() ==> #[trigger] p[i] != '"',
    ensures
        sp_until_quote(p + seq!['"'] + rest) == Some((p, rest)),
    decreases p.len(),
{
    let s = p + seq!['"'] + rest;
    if p.len() == 0 {
        assert(s[0] == '"');
        assert(s.skip(1) =~= rest);
        assert(sp_until_quote(s).unwrap().0 =~= p);
    } else {
        assert(s[0] == p[0]);
        assert(s[0] != '"');
        assert(s.drop_first() =~= p.drop_first() + seq!['"'] + rest);
        lemma_sp_until_quote(p.drop_first(), rest);
        assert(sp_until_quote(s).unwrap().0 =~= seq![p[0]] + p.drop_first());
        assert(seq![p[0]] + p.drop_first() =~= p);
    }
}

pub proof fn lemma_sp_string_esc(x: Seq<char>, rest: Seq<char>)
    ensures
        sp_string(esc(x) + seq!['"'] + rest) == Some((x, rest)),
    decreases x.len(),
{
    let s = esc(x) + seq!['"'] + rest;
    if x.len() == 0 {
        assert(esc(x) =~= Seq::<char>::empty());
        assert(s[0] == '"');
        assert(s.skip(1) =~= rest);
        assert(sp_string(s).unwrap().0 =~= x);
    } else {
        let c = x[0];
        let xt = x.drop_first();
        let st = esc(xt) + seq!['"'] + rest;
        assert(s =~= esc_char(c) + st);
        lemma_sp_string_esc(xt, rest);
        if c == '"' {
            assert(s[0] == '\\' && s[1] == '"');
            assert(s.skip(2) =~= st);
            assert(sp_string(s).unwrap().0 =~= seq![c] + xt);
        } else if c == '\\' {
            assert(s[0] == '\\' && s[1] == '\\');
            assert(s.skip(2) =~= st);
            assert(sp_string(s).unwrap().0 =~= seq![c] + xt);
        } else if (c as u32) < 32 {
            let hi = ((c as u32) / 16) as u8;
            let lo = ((c as u32) % 16) as u8;
            assert(s[0] == '\\' && s[1] == 'u' && s[2] == '0' && s[3] == '0');
            assert(s[4] == hex_char(hi) && s[5] == hex_char(lo));
            crate::hexutil::lemma_hex_char_val(hi);
            crate::hexutil::lemma_hex_char_val(lo);
            assert(hex_val(s[4]) * 16 + hex_val(s[5]) == c as u32);
            assert(s.skip(6) =~= st);
            assert(((hex_val(s[4]) * 16 + hex_val(s[5])) as u8) as char == c) by {
                vstd::utf8::char_u32_cast(c, c as u32);
                assert(((c as u32) as u8) as u32 == c as u32);
            }
            assert(sp_string(s).unwrap().0 =~= seq![c] + xt);
        } else {
            assert(s[0] == c);
            assert(s.drop_first() =~= st);
            assert(sp_string(s).unwrap().0 =~= seq![c] + xt);
        }
        assert(seq![c] + xt =~= x);
    }
}

/// Parsing a canonical rendering recovers exactly the event's attributes.
#[verifier::rlimit(100)]
#[verifier::spinoff_prover]
pub proof fn lemma_parse_render(e: Event)
    requires
        e.wf(),
    ensures
        sp_event(spec_render(e)) matches Some(f) && f.id == e.id@ && f.pubkey == e.pubkey@
            && f.kind == e.kind as nat && f.created_at == e.created_at as nat && f.content
            == e.content@,
{
    let s = spec_render(e);
    let l1 = ("{\"id\":\"")@;
    let l2 = ("\",\"pubkey\":\"")@;
    let l3 = (",\"kind\":")@;
    let l4 = (",\"created_at\":")@;
    let l5 = (",\"content\":\"")@;
    let l6 = ("}")@;
    reveal_strlit("\",\"kind\":");
    reveal_strlit(",\"kind\":");
    reveal_strlit("\"}");
    reveal_strlit("}");
    assert(("\",\"kind\":")@ =~= seq!['"'] + l3);
    assert(("\"}")@ =~= seq!['"'] + l6);
    let r2 = hex_of(e.id@) + l2 + e.pubkey@ + seq!['"'] + l3 + dec_of(e.kind as nat) + l4 + dec_of(
        e.created_at as nat,
    ) + l5 + esc(e.content@) + seq!['"'] + l6;
    assert(s =~= l1 + r2);
    lemma_sp_lit(l1, r2);
    assert(sp_lit(s, l1) == Some(r2)) by {
        assert(l1 + r2 =~= s);
    }
    let after_id = e.pubkey@ + seq!['"'] + l3 + dec_of(e.kind as nat) + l4 + dec_of(
        e.created_at as nat,
    ) + l5 + esc(e.content@) + seq!['"'] + l6;
    assert(r2 =~= hex_of(e.id@) + (l2 + after_id));
    lemma_sp_hexn(e.id@, l2 + after_id);
    assert(sp_hexn(r2, 32) == Some((e.id@, l2 + after_id))) by {
        assert(hex_of(e.id@) + (l2 + after_id) =~= r2);
        assert(e.id@.len() == 32);
    }
    lemma_sp_lit(l2, after_id);
    let after_pk_quote = l3 + dec_of(e.kind as nat) + l4 + dec_of(e.created_at as nat) + l5 + esc(
        e.content@,
    ) + seq!['"'] + l6;
    assert(after_id =~= e.pubkey@ + seq!['"'] + after_pk_quote);
    assert(forall|i: int| 0 <= i < e.pubkey@.len() ==> #[trigger] e.pubkey@[i] != '"') by {
        assert forall|i: int| 0 <= i < e.pubkey@.len() implies #[trigger] e.pubkey@[i] != '"' by {
            assert(is_lower_hex_char(e.pubkey@[i]));
        }
    }
    lemma_sp_until_quote(e.pubkey@, after_pk_quote);
    assert(sp_until_quote(after_id) == Some((e.pubkey@, after_pk_quote))) by {
        assert(e.pubkey@ + seq!['"'] + after_pk_quote =~= after_id);
    }
    let after_l3 = dec_of(e.kind as nat) + l4 + dec_of(e.created_at as nat) + l5 + esc(e.content@)
        + seq!['"'] + l6;
    assert(after_pk_quote =~= l3 + after_l3);
    lemma_sp_lit(l3, after_l3);
    assert(sp_lit(after_pk_quote, l3) == Some(after_l3)) by {
        assert(l3 + after_l3 =~= after_pk_quote);
    }
    let after_kind = l4 + dec_of(e.created_at as nat) + l5 + esc(e.content@) + seq!['"'] + l6;
    assert(after_l3 =~= dec_of(e.kind as nat) + after_kind);
    assert(after_kind.len() > 0 && !is_digit_char(after_kind[0])) by {
        reveal_strlit(",\"created_at\":");
        assert(after_kind[0] == ',');
    }
    lemma_sp_dec(e.kind as nat, after_kind);
    assert(sp_dec(after_l3) == Some((e.kind as nat, after_kind))) by {
        assert(dec_of(e.kind as nat) + after_kind =~= after_l3);
    }
    let after_l4 = dec_of(e.created_at as nat) + l5 + esc(e.content@) + seq!['"'] + l6;
    assert(after_kind =~= l4 + after_l4);
    lemma_sp_lit(l4, after_l4);
    assert(sp_lit(after_kind, l4) == Some(after_l4)) by {
        assert(l4 + after_l4 =~= after_kind);
    }
    let after_ts = l5 + esc(e.content@) + seq!['"'] + l6;
    assert(after_l4 =~= dec_of(e.created_at as nat) + after_ts);
    assert(after_ts.len() > 0 && !is_digit_char(after_ts[0])) by {
        reveal_strlit(",\"content\":\"");
        assert(after_ts[0] == ',');
    }
    lemma_sp_dec(e.created_at as nat, after_ts);
    assert(sp_dec(after_l4) == Some((e.created_at as nat, after_ts))) by {
        assert(dec_of(e.created_at as nat) + after_ts =~= after_l4);
    }
    let after_l5 = esc(e.content@) + seq!['"'] + l6;
    assert(after_ts =~= l5 + after_l5);
    lemma_sp_lit(l5, after_l5);
    assert(sp_lit(after_ts, l5) == Some(after_l5)) by {
        assert(l5 + after_l5 =~= after_ts);
    }
    lemma_sp_string_esc(e.content@, l6);
    assert(sp_string(after_l5) == Some((e.content@, l6))) by {
        assert(esc(e.content@) + seq!['"'] + l6 =~= after_l5);
    }
    lemma_sp_lit(l6, Seq::<char>::empty());
    assert(sp_lit(l6, l6) == Some(Seq::<char>::empty())) by {
        assert(l6 + Seq::<char>::empty() =~= l6);
    }
}

fn expect_lit(s: &str, i: usize, lit: &str) -> (r: Option<usize>)
    requires
        i <= s@.len(),
    ensures
        r matches Some(j) ==> j == i + lit@.len() && j <= s@.len() && sp_lit(
            s@.skip(i as int),
            lit@,
        ) == Some(s@.skip(j as int)),
        r is None ==> sp_lit(s@.skip(i as int), lit@) is None,
{
    let n = s.unicode_len();
    let m = lit.unicode_len();
    if n - i < m {
        proof {
            assert(s@.skip(i as int).len() < lit@.len());
        }
        return None;
    }
    let mut k: usize = 0;
    while k < m
        invariant
            i + m <= n,
            k <= m,
            s@.len() == n,
            lit@.len() == m,
            i <= s@.len(),
            forall|t: int| 0 <= t < k ==> s@[i + t] == lit@[t],
        decreases m - k,
    {
        if s.get_char(i + k) != lit.get_char(k) {
            proof {
                let pre = s@.skip(i as int).take(m as int);
                assert(pre[k as int] == s@[i + k]);
                assert(pre != lit@);
            }
            return None;
        }
        k = k + 1;
    }
    proof {
        assert(s@.skip(i as int).take(m as int) =~= lit@) by {
            assert forall|t: int| 0 <= t < m implies s@.skip(i as int).take(m as int)[t]
                == lit@[t] by {
                assert(s@[i + t] == lit@[t]);
            }
        }
        assert(s@.skip(i as int).skip(m as int) =~= s@.skip((i + m) as int));
    }
    Some(i + m)
}

/// Lifts a parsed prefix over the remaining hex parse.
spec fn hexn_prepend(b: Seq<u8>, o: Option<(Seq<u8>, Seq<char>)>) -> Option<(Seq<u8>, Seq<char>)> {
    match o {
        Some(p) => Some((b + p.0, p.1)),
        None => None,
    }
}

fn parse_hex32(s: &str, i: usize) -> (r: Option<(Vec<u8>, usize)>)
    requires
        i <= s@.len(),
    ensures
        r matches Some(p) ==> p.1 <= s@.len() && p.0@.len() == 32 && sp_hexn(s@.skip(i as int), 32)
            == Some((p.0@, s@.skip(p.1 as int))),
        r is None ==> sp_hexn(s@.skip(i as int), 32) is None,
{
    let n = s.unicode_len();
    let mut acc: Vec<u8> = Vec::new();
    let mut k: usize = 0;
    while k < 32
        invariant
            k <= 32,
            acc@.len() == k,
            s@.len() == n,
            i + 2 * k <= n || k == 0,
            i <= s@.len(),
            i + 2 * k <= usize::MAX,
            sp_hexn(s@.skip(i as int), 32) == hexn_prepend(
                acc@,
                sp_hexn(s@.skip(i + 2 * k), (32 - k) as nat),
            ),
        decreases 32 - k,
    {
        let cur = i + 2 * k;
        let ghost rest = s@.skip(cur as int);
        proof {
            assert(cur <= n);
        }
        if n - cur < 2 {
            proof {
                assert(rest.len() < 2);
                assert(sp_hexn(rest, (32 - k) as nat) is None);
            }
            return None;
        }
        let c1 = s.get_char(cur);
        let c2 = s.get_char(cur + 1);
        let hi = crate::hexutil::hex_val_exec(c1);
        let lo = crate::hexutil::hex_val_exec(c2);
        proof {
            assert(rest[0] == s@[cur as int]);
            assert(rest[1] == s@[cur as int + 1]);
        }
        if hi == 16 || lo == 16 {
            proof {
                assert(sp_hexn(rest, (32 - k) as nat) is None);
            }
            return None;
        }
        let b = hi * 16 + lo;
        acc.push(b);
        proof {
            let tail = s@.skip(cur + 2);
            assert(rest.skip(2) =~= tail);
            let inner = sp_hexn(tail, (32 - (k + 1)) as nat);
            assert(sp_hexn(rest, (32 - k) as nat) == hexn_prepend(seq![b], inner)) by {
                assert(is_lower_hex_char(rest[0]) && is_lower_hex_char(rest[1]));
                assert((hex_val(rest[0]) * 16 + hex_val(rest[1])) as u8 == b);
            }
            match inner {
                Some(p) => {
                    assert(acc@ + p.0 =~= acc@.drop_last() + (seq![b] + p.0));
                },
                None => {},
            }
        }
        k = k + 1;
    }
    proof {
        let cur = i + 2 * k;
        assert(sp_hexn(s@.skip(cur as int), 0) == Some(
            (Seq::<u8>::empty(), s@.skip(cur as int)),
        ));
        assert(acc@ + Seq::<u8>::empty() =~= acc@);
    }
    Some((acc, i + 64))
}

pub proof fn lemma_pow10_mono(a: nat, b: nat)
    requires
        a <= b,
    ensures
        pow10(a) <= pow10(b),
        pow10(a) >= 1,
    decreases b,
{
    if b == 0 {
    } else if a == b {
        lemma_pow10_mono((a - 1) as nat, (b - 1) as nat);
    } else {
        lemma_pow10_mono(a, (b - 1) as nat);
    }
}

fn parse_u64_at(s: &str, i: usize) -> (r: Option<(u64, usize)>)
    requires
        i <= s@.len(),
    ensures
        r matches Some(p) ==> p.1 <= s@.len() && sp_dec(s@.skip(i as int)) == Some(
            (p.0 as nat, s@.skip(p.1 as int)),
        ),
        r is None ==> (sp_dec(s@.skip(i as int)) is None || (sp_dec(s@.skip(i as int)) matches Some(
            q,
        ) && q.0 > u64::MAX)),
{
    let n = s.unicode_len();
    let mut j: usize = i;
    loop
        invariant
            i <= j <= n,
            s@.len() == n,
            forall|t: int| i <= t < j ==> is_digit_char(#[trigger] s@[t]),
        ensures
            i <= j <= n,
            s@.len() == n,
            forall|t: int| i <= t < j ==> is_digit_char(#[trigger] s@[t]),
            j < n ==> !is_digit_char(s@[j as int]),
        decreases n - j,
    {
        if j >= n {
            break;
        }
        let c = s.get_char(j);
        if crate::hexutil::hex_val_exec(c) >= 10 {
            break;
        }
        j = j + 1;
    }
    let ghost run = s@.subrange(i as int, j as int);
    proof {
        assert(s@.skip(i as int) =~= run + s@.skip(j as int));
        assert(forall|t: int| 0 <= t < run.len() ==> is_digit_char(#[trigger] run[t]));
        if j < n {
            assert(!is_digit_char(s@[j as int]));
            assert(s@.skip(j as int)[0] == s@[j as int]);
        }
        lemma_sp_digits_concat(run, s@.skip(j as int));
        assert(sp_digits(s@.skip(i as int)) == (run, s@.skip(j as int)));
    }
    let cnt = j - i;
    if cnt == 0 || cnt > 20 {
        return None;
    }
    let mut acc: u128 = 0;
    let mut t: usize = i;
    while t < j
        invariant
            i <= t <= j <= n,
            s@.len() == n,
            j - i <= 20,
            forall|p: int| i <= p < j ==> is_digit_char(#[trigger] s@[p]),
            acc as nat == dec_val(s@.subrange(i as int, t as int)),
            (acc as nat) < pow10((t - i) as nat),
        decreases j - t,
    {
        let c = s.get_char(t);
        let d = crate::hexutil::hex_val_exec(c);
        proof {
            lemma_pow10_mono((t - i) as nat, 19);
            lemma_pow10_20();
            assert(pow10(19) * 10 == pow10(20));
            assert(acc < pow10(19));
            assert(acc * 10 + 15 < 10 * pow10(19) + 15);
        }
        let acc2: u128 = acc * 10 + (d as u128);
        proof {
            let r0 = s@.subrange(i as int, t as int);
            let r1 = s@.subrange(i as int, t + 1);
            assert(r1.drop_last() =~= r0);
            assert(r1.last() == s@[t as int]);
            assert(dec_val(r1) == dec_val(r0) * 10 + hex_val(s@[t as int]));
            assert(is_digit_char(s@[t as int]));
            assert(acc2 as nat == dec_val(r1));
            assert(dec_val(r0) <= pow10((t - i) as nat) - 1);
            assert(pow10((t + 1 - i) as nat) == 10 * pow10((t - i) as nat));
            assert((acc2 as nat) < pow10((t + 1 - i) as nat));
        }
        acc = acc2;
        t = t + 1;
    }
    proof {
        assert(s@.subrange(i as int, j as int) =~= run);
        assert(acc as nat == dec_val(run));
        assert(1 <= run.len() <= 20);
    }
    if acc > u64::MAX as u128 {
        return None;
    }
    Some((acc as u64, j))
}

/// Lifts a decoded prefix over the remaining string parse.
spec fn str_prepend(b: Seq<char>, o: Option<(Seq<char>, Seq<char>)>) -> Option<
    (Seq<char>, Seq<char>),
> {
    match o {
        Some(p) => Some((b + p.0, p.1)),
        None => None,
    }
}

fn parse_until_quote_at(s: &str, i: usize) -> (r: Option<(String, usize)>)
    requires
        i <= s@.len(),
    ensures
        r matches Some(p) ==> p.1 <= s@.len() && sp_until_quote(s@.skip(i as int)) == Some(
            (p.0@, s@.skip(p.1 as int)),
        ),
        r is None ==> sp_until_quote(s@.skip(i as int)) is None,
{
    let n = s.unicode_len();
    let mut acc = String::new();
    let mut cur: usize = i;
    while cur < n
        invariant
            i <= cur <= n,
            s@.len() == n,
            sp_until_quote(s@.skip(i as int)) == str_prepend(
                acc@,
                sp_until_quote(s@.skip(cur as int)),
            ),
        decreases n - cur,
    {
        let c = s.get_char(cur);
        proof {
            assert(s@.skip(cur as int)[0] == s@[cur as int]);
        }
        if c == '"' {
            proof {
                assert(s@.skip(cur as int).skip(1) =~= s@.skip(cur + 1));
                assert(sp_until_quote(s@.skip(cur as int)) == Some(
                    (Seq::<char>::empty(), s@.skip(cur + 1)),
                ));
                assert(acc@ + Seq::<char>::empty() =~= acc@);
            }
            return Some((acc, cur + 1));
        }
        string_push(&mut acc, c);
        proof {
            assert(s@.skip(cur as int).drop_first() =~= s@.skip(cur + 1));
            let inner = sp_until_quote(s@.skip(cur + 1));
            assert(sp_until_quote(s@.skip(cur as int)) == str_prepend(seq![c], inner));
            match inner {
                Some(p) => {
                    assert(acc@ + p.0 =~= acc@.drop_last() + (seq![c] + p.0));
                },
                None => {},
            }
        }
        cur = cur + 1;
    }
    proof {
        assert(s@.skip(cur as int).len() == 0);
    }
    None
}

fn parse_string_at(s: &str, i: usize) -> (r: Option<(String, usize)>)
    requires
        i <= s@.len(),
    ensures
        r matches Some(p) ==> p.1 <= s@.len() && sp_string(s@.skip(i as int)) == Some(
            (p.0@, s@.skip(p.1 as int)),
        ),
        r is None ==> sp_string(s@.skip(i as int)) is None,
{
    let n = s.unicode_len();
    let mut acc = String::new();
    let mut cur: usize = i;
    while cur < n
        invariant
            i <= cur <= n,
            s@.len() == n,
            sp_string(s@.skip(i as int)) == str_prepend(acc@, sp_string(s@.skip(cur as int))),
        decreases n - cur,
    {
        let ghost rest = s@.skip(cur as int);
        let c = s.get_char(cur);
        proof {
            assert(rest[0] == s@[cur as int]);
        }
        if c == '"' {
            proof {
                assert(rest.skip(1) =~= s@.skip(cur + 1));
                assert(sp_string(rest) == Some((Seq::<char>::empty(), s@.skip(cur + 1))));
                assert(acc@ + Seq::<char>::empty() =~= acc@);
            }
            return Some((acc, cur + 1));
        }
        if c == '\\' {
            if n - cur >= 2 {
                let c1 = s.get_char(cur + 1);
                proof {
                    assert(rest[1] == s@[cur as int + 1]);
                }
                if c1 == '"' || c1 == '\\' {
                    string_push(&mut acc, c1);
                    proof {
                        assert(rest.skip(2) =~= s@.skip(cur + 2));
                        let inner = sp_string(s@.skip(cur + 2));
                        assert(sp_string(rest) == str_prepend(seq![c1], inner));
                        match inner {
                            Some(p) => {
                                assert(acc@ + p.0 =~= acc@.drop_last() + (seq![c1] + p.0));
                            },
                            None => {},
                        }
                    }
                    cur = cur + 2;
                    continue;
                }
                if n - cur >= 6 {
                    let c2 = s.get_char(cur + 2);
                    let c3 = s.get_char(cur + 3);
                    let c4 = s.get_char(cur + 4);
                    let c5 = s.get_char(cur + 5);
                    let hi = crate::hexutil::hex_val_exec(c4);
                    let lo = crate::hexutil::hex_val_exec(c5);
                    proof {
                        assert(rest[2] == s@[cur as int + 2]);
                        assert(rest[3] == s@[cur as int + 3]);
                        assert(rest[4] == s@[cur as int + 4]);
                        assert(rest[5] == s@[cur as int + 5]);
                    }
                    if c1 == 'u' && c2 == '0' && c3 == '0' && hi < 16 && lo < 16 && hi * 16 + lo
                        < 32 {
                        let b: u8 = hi * 16 + lo;
                        string_push(&mut acc, b as char);
                        proof {
                            assert(rest.skip(6) =~= s@.skip(cur + 6));
                            let inner = sp_string(s@.skip(cur + 6));
                            let decoded = ((hex_val(rest[4]) * 16 + hex_val(rest[5])) as u8) as char;
                            assert(decoded == b as char);
                            assert(sp_string(rest) == str_prepend(seq![decoded], inner));
                            match inner {
                                Some(p) => {
                                    assert(acc@ + p.0 =~= acc@.drop_last() + (seq![decoded] + p.0));
                                },
                                None => {},
                            }
                        }
                        cur = cur + 6;
                        continue;
                    }
                    proof {
                        assert(sp_string(rest) is None);
                    }
                    return None;
                }
                proof {
                    assert(rest.len() < 6);
                    assert(sp_string(rest) is None);
                }
                return None;
            }
            proof {
                assert(rest.len() < 2);
                assert(sp_string(rest) is None);
            }
            return None;
        }
        string_push(&mut acc, c);
        proof {
            assert(rest.drop_first() =~= s@.skip(cur + 1));
            let inner = sp_string(s@.skip(cur + 1));
            assert(sp_string(rest) == str_prepend(seq![c], inner));
            match inner {
                Some(p) => {
                    assert(acc@ + p.0 =~= acc@.drop_last() + (seq![c] + p.0));
                },
                None => {},
            }
        }
        cur = cur + 1;
    }
    proof {
        assert(s@.skip(cur as int).len() == 0);
    }
    None
}

/// Parse a canonical JSON event object; accepts exactly the renderings
/// that `render_event` produces.
pub fn parse_event(s: &str) -> (r: Option<Event>)
    ensures
        r matches Some(ev) ==> (sp_event(s@) matches Some(f) && f.id == ev.id@ && f.pubkey
            == ev.pubkey@ && f.kind == ev.kind as nat && f.created_at == ev.created_at as nat
            && f.content == ev.content@ && ev.id@.len() == 32),
        r is None ==> sp_event(s@) is None,
{
    proof {
        assert(s@.skip(0) =~= s@);
    }
    let i1 = match expect_lit(s, 0, "{\"id\":\"") {
        None => {
            return None;
        },
        Some(j) => j,
    };
    let (id, i2) = match parse_hex32(s, i1) {
        None => {
            return None;
        },
        Some(p) => p,
    };
    let i3 = match expect_lit(s, i2, "\",\"pubkey\":\"") {
        None => {
            return None;
        },
        Some(j) => j,
    };
    let (pubkey, i4) = match parse_until_quote_at(s, i3) {
        None => {
            return None;
        },
        Some(p) => p,
    };
    let i5 = match expect_lit(s, i4, ",\"kind\":") {
        None => {
            return None;
        },
        Some(j) => j,
    };
    let (kind64, i6) = match parse_u64_at(s, i5) {
        None => {
            return None;
        },
        Some(p) => p,
    };
    if kind64 > 65535 {
        return None;
    }
    let i7 = match expect_lit(s, i6, ",\"created_at\":") {
        None => {
            return None;
        },
        Some(j) => j,
    };
    let (created_at, i8) = match parse_u64_at(s, i7) {
        None => {
            return None;
        },
        Some(p) => p,
    };
    let i9 = match expect_lit(s, i8, ",\"content\":\"") {
        None => {
            return None;
        },
        Some(j) => j,
    };
    let (content, i10) = match parse_string_at(s, i9) {
        None => {
            return None;
        },
        Some(p) => p,
    };
    let i11 = match expect_lit(s, i10, "}") {
        None => {
            return None;
        },
        Some(j) => j,
    };
    if i11 != s.unicode_len() {
        return None;
    }
    proof {
        assert(s@.skip(i11 as int).len() == 0);
    }
    Some(Event { id, pubkey, kind: kind64 as u16, created_at, content })
}

} // verus!
