//! The record codec: a self-delimiting textual encoding of command records.
//!
//! One record is one discriminated-variant object, for example
//! `{"SET":["key","value"]}` or `{"RM":["key"]}`, with `"` and `\` escaped
//! by a backslash inside the quoted strings. A decoder handed a longer text
//! reads exactly one record and reports how many characters it consumed, so
//! successive records can be read from a stream and so the engine can
//! compute record pointers and stale-byte counts.

use vstd::prelude::*;

use crate::chars::{chars_to_string, str_to_chars};
use crate::command::{Command, CommandView};
use crate::error::KVStoreError;

verus! {

/// How one character is written inside a quoted string.
pub open spec fn esc_char(c: char) -> Seq<char> {
    if c == '"' || c == '\\' {
        seq!['\\', c]
    } else {
        seq![c]
    }
}

/// How a whole string is written inside quotes.
pub open spec fn esc(s: Seq<char>) -> Seq<char>
    decreases s.len(),
{
    if s.len() == 0 {
        Seq::empty()
    } else {
        esc_char(s[0]) + esc(s.drop_first())
    }
}

/// The opening of a `SET` record, up to and including the key's quote.
pub open spec fn set_prefix() -> Seq<char> {
    seq!['{', '"', 'S', 'E', 'T', '"', ':', '[', '"']
}

/// The separator between the key and the value of a `SET` record.
pub open spec fn set_mid() -> Seq<char> {
    seq![',', '"']
}

/// The closing of a record, after a quoted string.
pub open spec fn record_suffix() -> Seq<char> {
    seq![']', '}']
}

/// The opening of a `RM` record, up to and including the key's quote.
pub open spec fn rm_prefix() -> Seq<char> {
    seq!['{', '"', 'R', 'M', '"', ':', '[', '"']
}

/// The text of one encoded command record.
pub open spec fn encode_cmd(c: CommandView) -> Seq<char> {
    match c {
        CommandView::SET(k, v) => set_prefix() + esc(k) + seq!['"'] + set_mid() + esc(v)
            + seq!['"'] + record_suffix(),
        CommandView::RM(k) => rm_prefix() + esc(k) + seq!['"'] + record_suffix(),
    }
}

/// Whether `s` begins with `p`.
pub open spec fn starts_with(s: Seq<char>, p: Seq<char>) -> bool {
    s.len() >= p.len() && s.take(p.len() as int) == p
}

/// Reads one quoted string starting just after its opening quote: the
/// string's characters, unescaped, and the count of characters consumed,
/// closing quote included. `None` on text that no escaped string begins.
pub open spec fn parse_str(s: Seq<char>) -> Option<(Seq<char>, int)>
    decreases s.len(),
{
    if s.len() == 0 {
        None
    } else if s[0] == '"' {
        Some((Seq::empty(), 1))
    } else if s[0] == '\\' {
        if s.len() >= 2 && (s[1] == '"' || s[1] == '\\') {
            match parse_str(s.skip(2)) {
                Some((t, n)) => Some((seq![s[1]] + t, n + 2)),
                None => None,
            }
        } else {
            None
        }
    } else {
        match parse_str(s.skip(1)) {
            Some((t, n)) => Some((seq![s[0]] + t, n + 1)),
            None => None,
        }
    }
}

/// Reads one command record from the head of `s`: the record and the count
/// of characters consumed. `None` on text that no record begins.
pub open spec fn parse_cmd(s: Seq<char>) -> Option<(CommandView, int)> {
    if starts_with(s, set_prefix()) {
        match parse_str(s.skip(9)) {
            Some((k, n1)) => if s.len() >= 9 + n1 + 2 && s[9 + n1] == ',' && s[9 + n1 + 1]
                == '"' {
                match parse_str(s.skip(9 + n1 + 2)) {
                    Some((v, n2)) => if s.len() >= 9 + n1 + 2 + n2 + 2 && s[9 + n1 + 2 + n2]
                        == ']' && s[9 + n1 + 2 + n2 + 1] == '}' {
                        Some((CommandView::SET(k, v), 9 + n1 + 2 + n2 + 2))
                    } else {
                        None
                    },
                    None => None,
                }
            } else {
                None
            },
            None => None,
        }
    } else if starts_with(s, rm_prefix()) {
        match parse_str(s.skip(8)) {
            Some((k, n1)) => if s.len() >= 8 + n1 + 2 && s[8 + n1] == ']' && s[8 + n1 + 1]
                == '}' {
                Some((CommandView::RM(k), 8 + n1 + 2))
            } else {
                None
            },
            None => None,
        }
    } else {
        None
    }
}

/// The text of a whole log: the records' encodings, one after the other.
pub open spec fn encode_log(cs: Seq<CommandView>) -> Seq<char>
    decreases cs.len(),
{
    if cs.len() == 0 {
        Seq::empty()
    } else {
        encode_cmd(cs[0]) + encode_log(cs.drop_first())
    }
}

/// Reads a whole log: the sequence of records, or `None` if the text is not
/// a sequence of encoded records.
pub open spec fn parse_log(s: Seq<char>) -> Option<Seq<CommandView>>
    decreases s.len(),
{
    if s.len() == 0 {
        Some(Seq::empty())
    } else {
        match parse_cmd(s) {
            Some((c, n)) => if 1 <= n <= s.len() {
                match parse_log(s.skip(n)) {
                    Some(cs) => Some(seq![c] + cs),
                    None => None,
                }
            } else {
                None
            },
            None => None,
        }
    }
}

/// Escaping distributes over concatenation.
pub proof fn lemma_esc_concat(a: Seq<char>, b: Seq<char>)
    ensures
        esc(a + b) == esc(a) + esc(b),
    decreases a.len(),
{
    if a.len() == 0 {
        assert(a + b =~= b);
        assert(esc(a) + esc(b) =~= esc(b));
    } else {
        assert((a + b).drop_first() =~= a.drop_first() + b);
        lemma_esc_concat(a.drop_first(), b);
        assert(esc(a + b) =~= esc_char(a[0]) + (esc(a.drop_first()) + esc(b)));
        assert(esc_char(a[0]) + (esc(a.drop_first()) + esc(b)) =~= (esc_char(a[0]) + esc(
            a.drop_first(),
        )) + esc(b));
    }
}

/// Escaping one more character appends that character's escape.
pub proof fn lemma_esc_snoc(a: Seq<char>, c: char)
    ensures
        esc(a.push(c)) == esc(a) + esc_char(c),
{
    assert(a.push(c) =~= a + seq![c]);
    lemma_esc_concat(a, seq![c]);
    assert(seq![c].drop_first() =~= Seq::<char>::empty());
    assert(esc(seq![c]) =~= esc_char(c) + esc(Seq::<char>::empty()));
    assert(esc_char(c) + esc(Seq::<char>::empty()) =~= esc_char(c));
}

/// Reading a quoted string succeeds on the escape of any string followed by
/// a closing quote, consumes exactly that much, and hands the string back.
pub proof fn lemma_parse_str_complete(t: Seq<char>, rest: Seq<char>)
    ensures
        parse_str(esc(t) + seq!['"'] + rest) == Some((t, esc(t).len() as int + 1)),
    decreases t.len(),
{
    let s = esc(t) + seq!['"'] + rest;
    if t.len() == 0 {
        assert(esc(t) =~= Seq::<char>::empty());
        assert(s[0] == '"');
        assert(parse_str(s) == Some((Seq::<char>::empty(), 1int)));
        assert(t =~= Seq::<char>::empty());
    } else {
        let c = t[0];
        let t2 = t.drop_first();
        lemma_parse_str_complete(t2, rest);
        assert(esc(t) == esc_char(c) + esc(t2));
        if c == '"' || c == '\\' {
            assert(s[0] == '\\');
            assert(s[1] == c);
            assert(s.skip(2) =~= esc(t2) + seq!['"'] + rest);
            assert(parse_str(s) == Some((seq![c] + t2, esc(t2).len() as int + 1 + 2)));
            assert(seq![c] + t2 =~= t);
            assert(esc(t).len() == esc(t2).len() + 2);
        } else {
            assert(s[0] == c);
            assert(s.skip(1) =~= esc(t2) + seq!['"'] + rest);
            assert(parse_str(s) == Some((seq![c] + t2, esc(t2).len() as int + 1 + 1)));
            assert(seq![c] + t2 =~= t);
            assert(esc(t).len() == esc(t2).len() + 1);
        }
    }
}

/// Whatever reading a quoted string consumed was exactly the escape of what
/// it handed back, closing quote included.
pub proof fn lemma_parse_str_sound(s: Seq<char>)
    ensures
        parse_str(s) matches Some((t, n)) ==> {
            &&& 1 <= n <= s.len()
            &&& n == esc(t).len() + 1
            &&& s.take(n) == esc(t) + seq!['"']
        },
    decreases s.len(),
{
    if s.len() == 0 {
    } else if s[0] == '"' {
        assert(s.take(1) =~= esc(Seq::<char>::empty()) + seq!['"']);
    } else if s[0] == '\\' {
        if s.len() >= 2 && (s[1] == '"' || s[1] == '\\') {
            lemma_parse_str_sound(s.skip(2));
            if let Some((t2, n2)) = parse_str(s.skip(2)) {
                let t = seq![s[1]] + t2;
                let n = n2 + 2;
                assert(t.drop_first() =~= t2);
                assert(esc(t) == esc_char(s[1]) + esc(t2));
                assert(s.skip(2).take(n2) == esc(t2) + seq!['"']);
                assert(s.take(n) =~= seq!['\\', s[1]] + s.skip(2).take(n2));
                assert(seq!['\\', s[1]] + (esc(t2) + seq!['"']) =~= (seq!['\\', s[1]] + esc(
                    t2,
                )) + seq!['"']);
                assert(esc_char(s[1]) =~= seq!['\\', s[1]]);
                assert(s.take(n) == esc(t) + seq!['"']);
            }
        }
    } else {
        lemma_parse_str_sound(s.skip(1));
        if let Some((t2, n2)) = parse_str(s.skip(1)) {
            let t = seq![s[0]] + t2;
            let n = n2 + 1;
            assert(t.drop_first() =~= t2);
            assert(esc(t) == esc_char(s[0]) + esc(t2));
            assert(s.skip(1).take(n2) == esc(t2) + seq!['"']);
            assert(s.take(n) =~= seq![s[0]] + s.skip(1).take(n2));
            assert(seq![s[0]] + (esc(t2) + seq!['"']) =~= (seq![s[0]] + esc(t2)) + seq!['"']);
            assert(esc_char(s[0]) =~= seq![s[0]]);
            assert(s.take(n) == esc(t) + seq!['"']);
        }
    }
}

/// Reading one record succeeds on the encoding of any command followed by
/// anything, consumes exactly the encoding, and hands the command back.
pub proof fn lemma_parse_cmd_complete(c: CommandView, rest: Seq<char>)
    ensures
        parse_cmd(encode_cmd(c) + rest) == Some((c, encode_cmd(c).len() as int)),
{
    let s = encode_cmd(c) + rest;
    match c {
        CommandView::SET(k, v) => {
            let n1: int = esc(k).len() as int + 1;
            let n2: int = esc(v).len() as int + 1;
            assert(starts_with(s, set_prefix())) by {
                assert(s.take(9) =~= set_prefix());
            }
            assert(s.skip(9) =~= esc(k) + seq!['"'] + (set_mid() + esc(v) + seq!['"']
                + record_suffix() + rest));
            lemma_parse_str_complete(k, set_mid() + esc(v) + seq!['"'] + record_suffix() + rest);
            assert(parse_str(s.skip(9)) == Some((k, n1)));
            assert(s.len() >= 9 + n1 + 2);
            assert(s[9 + n1] == ',');
            assert(s[9 + n1 + 1] == '"');
            assert(s.skip(9 + n1 + 2) =~= esc(v) + seq!['"'] + (record_suffix() + rest));
            lemma_parse_str_complete(v, record_suffix() + rest);
            assert(parse_str(s.skip(9 + n1 + 2)) == Some((v, n2)));
            assert(s.len() >= 9 + n1 + 2 + n2 + 2);
            assert(s[9 + n1 + 2 + n2] == ']');
            assert(s[9 + n1 + 2 + n2 + 1] == '}');
            assert(encode_cmd(c).len() == 9 + n1 + 2 + n2 + 2);
        },
        CommandView::RM(k) => {
            let n1: int = esc(k).len() as int + 1;
            assert(!starts_with(s, set_prefix())) by {
                assert(s[2] == 'R');
                assert(set_prefix()[2] == 'S');
                if starts_with(s, set_prefix()) {
                    assert(s.take(9)[2] == 'S');
                }
            }
            assert(starts_with(s, rm_prefix())) by {
                assert(s.take(8) =~= rm_prefix());
            }
            assert(s.skip(8) =~= esc(k) + seq!['"'] + (record_suffix() + rest));
            lemma_parse_str_complete(k, record_suffix() + rest);
            assert(parse_str(s.skip(8)) == Some((k, n1)));
            assert(s.len() >= 8 + n1 + 2);
            assert(s[8 + n1] == ']');
            assert(s[8 + n1 + 1] == '}');
            assert(encode_cmd(c).len() == 8 + n1 + 2);
        },
    }
}

/// Whatever reading one record consumed was exactly the encoding of the
/// record it handed back.
pub proof fn lemma_parse_cmd_sound(s: Seq<char>)
    ensures
        parse_cmd(s) matches Some((c, n)) ==> {
            &&& 1 <= n <= s.len()
            &&& n == encode_cmd(c).len()
            &&& s.take(n) == encode_cmd(c)
        },
{
    if starts_with(s, set_prefix()) {
        lemma_parse_str_sound(s.skip(9));
        if let Some((k, n1)) = parse_str(s.skip(9)) {
            if s.len() >= 9 + n1 + 2 && s[9 + n1] == ',' && s[9 + n1 + 1] == '"' {
                lemma_parse_str_sound(s.skip(9 + n1 + 2));
                if let Some((v, n2)) = parse_str(s.skip(9 + n1 + 2)) {
                    if s.len() >= 9 + n1 + 2 + n2 + 2 && s[9 + n1 + 2 + n2] == ']' && s[9 + n1 + 2
                        + n2 + 1] == '}' {
                        let n = 9 + n1 + 2 + n2 + 2;
                        let c = CommandView::SET(k, v);
                        assert(s.skip(9).take(n1) == esc(k) + seq!['"']);
                        assert(s.skip(9 + n1 + 2).take(n2) == esc(v) + seq!['"']);
                        assert(n == encode_cmd(c).len());
                        assert(s.take(n) =~= encode_cmd(c)) by {
                            assert forall|i: int| 0 <= i < n implies s.take(n)[i] == encode_cmd(
                                c,
                            )[i] by {
                                if i < 9 {
                                    assert(s.take(9) == set_prefix());
                                    assert(s.take(9)[i] == s[i]);
                                    assert(encode_cmd(c)[i] == set_prefix()[i]);
                                } else if i < 9 + n1 {
                                    assert(s.skip(9).take(n1)[i - 9] == s[i]);
                                    assert(encode_cmd(c)[i] == (esc(k) + seq!['"'])[i - 9]);
                                } else if i < 9 + n1 + 2 {
                                    assert(encode_cmd(c)[i] == set_mid()[i - 9 - n1]);
                                } else if i < 9 + n1 + 2 + n2 {
                                    assert(s.skip(9 + n1 + 2).take(n2)[i - 9 - n1 - 2] == s[i]);
                                    assert(encode_cmd(c)[i] == (esc(v) + seq!['"'])[i - 9 - n1
                                        - 2]);
                                } else {
                                    assert(encode_cmd(c)[i] == record_suffix()[i - 9 - n1 - 2
                                        - n2]);
                                }
                            }
                        }
                    }
                }
            }
        }
    } else if starts_with(s, rm_prefix()) {
        lemma_parse_str_sound(s.skip(8));
        if let Some((k, n1)) = parse_str(s.skip(8)) {
            if s.len() >= 8 + n1 + 2 && s[8 + n1] == ']' && s[8 + n1 + 1] == '}' {
                let n = 8 + n1 + 2;
                let c = CommandView::RM(k);
                assert(s.skip(8).take(n1) == esc(k) + seq!['"']);
                assert(n == encode_cmd(c).len());
                assert(s.take(n) =~= encode_cmd(c)) by {
                    assert forall|i: int| 0 <= i < n implies s.take(n)[i] == encode_cmd(c)[i] by {
                        if i < 8 {
                            assert(s.take(8) == rm_prefix());
                            assert(s.take(8)[i] == s[i]);
                            assert(encode_cmd(c)[i] == rm_prefix()[i]);
                        } else if i < 8 + n1 {
                            assert(s.skip(8).take(n1)[i - 8] == s[i]);
                            assert(encode_cmd(c)[i] == (esc(k) + seq!['"'])[i - 8]);
                        } else {
                            assert(encode_cmd(c)[i] == record_suffix()[i - 8 - n1]);
                        }
                    }
                }
            }
        }
    }
}

/// Appending records' encodings concatenates their texts.
pub proof fn lemma_encode_log_snoc(cs: Seq<CommandView>, c: CommandView)
    ensures
        encode_log(cs.push(c)) == encode_log(cs) + encode_cmd(c),
    decreases cs.len(),
{
    if cs.len() == 0 {
        assert(cs.push(c).drop_first() =~= Seq::<CommandView>::empty());
        assert(encode_log(cs.push(c)) =~= encode_cmd(c) + encode_log(
            Seq::<CommandView>::empty(),
        ));
        assert(encode_cmd(c) + encode_log(Seq::<CommandView>::empty()) =~= encode_cmd(c));
        assert(encode_log(cs) + encode_cmd(c) =~= encode_cmd(c));
    } else {
        assert(cs.push(c).drop_first() =~= cs.drop_first().push(c));
        lemma_encode_log_snoc(cs.drop_first(), c);
        assert(encode_log(cs.push(c)) == encode_cmd(cs[0]) + (encode_log(cs.drop_first())
            + encode_cmd(c)));
        assert(encode_cmd(cs[0]) + (encode_log(cs.drop_first()) + encode_cmd(c)) =~= (encode_cmd(
            cs[0],
        ) + encode_log(cs.drop_first())) + encode_cmd(c));
    }
}

/// Reading a whole log succeeds on the encoding of any record sequence and
/// hands that sequence back.
pub proof fn lemma_parse_log_complete(cs: Seq<CommandView>)
    ensures
        parse_log(encode_log(cs)) == Some(cs),
    decreases cs.len(),
{
    if cs.len() == 0 {
        assert(encode_log(cs).len() == 0);
        assert(cs =~= Seq::<CommandView>::empty());
    } else {
        let c0 = cs[0];
        let rest = cs.drop_first();
        let s = encode_log(cs);
        assert(s == encode_cmd(c0) + encode_log(rest));
        lemma_parse_cmd_complete(c0, encode_log(rest));
        let n = encode_cmd(c0).len() as int;
        assert(n >= 1) by {
            match c0 {
                CommandView::SET(k, v) => {},
                CommandView::RM(k) => {},
            }
        }
        assert(s.len() >= n);
        assert(s.skip(n) =~= encode_log(rest));
        lemma_parse_log_complete(rest);
        assert(parse_log(s) == Some(seq![c0] + rest));
        assert(seq![c0] + rest =~= cs);
    }
}

/// A text that reads as a record sequence is exactly that sequence's
/// encoding.
pub proof fn lemma_parse_log_sound(s: Seq<char>)
    ensures
        parse_log(s) matches Some(cs) ==> s == encode_log(cs),
    decreases s.len(),
{
    if s.len() == 0 {
        if let Some(cs) = parse_log(s) {
            assert(s =~= encode_log(cs));
        }
    } else {
        lemma_parse_cmd_sound(s);
        if let Some((c, n)) = parse_cmd(s) {
            if 1 <= n <= s.len() {
                lemma_parse_log_sound(s.skip(n));
                if let Some(cs2) = parse_log(s.skip(n)) {
                    let cs = seq![c] + cs2;
                    assert(cs.drop_first() =~= cs2);
                    assert(cs[0] == c);
                    assert(encode_log(cs) == encode_cmd(c) + encode_log(cs2));
                    assert(s =~= s.take(n) + s.skip(n));
                    assert(s == encode_log(cs));
                }
            }
        }
    }
}


/// Appends the escaped form of `s` to `out`.
pub(crate) fn push_escaped(out: &mut Vec<char>, s: &Vec<char>)
    ensures
        final(out)@ == old(out)@ + esc(s@),
{
    let ghost base = out@;
    let mut i: usize = 0;
    while i < s.len()
        invariant
            i <= s.len(),
            out@ == base + esc(s@.take(i as int)),
        decreases s.len() - i,
    {
        let c = s[i];
        proof {
            lemma_esc_snoc(s@.take(i as int), s@[i as int]);
            assert(s@.take(i as int).push(s@[i as int]) =~= s@.take(i + 1));
        }
        if c == '"' || c == '\\' {
            out.push('\\');
            out.push(c);
            proof {
                assert(out@ =~= base + esc(s@.take(i + 1)));
            }
        } else {
            out.push(c);
            proof {
                assert(out@ =~= base + esc(s@.take(i + 1)));
            }
        }
        i += 1;
    }
    proof {
        assert(s@.take(s.len() as int) =~= s@);
    }
}

/// The encoded text of one command record.
pub fn encode_command(c: &Command) -> (r: Vec<char>)
    ensures
        r@ == encode_cmd(c@),
{
    let mut out: Vec<char> = Vec::new();
    match c {
        Command::SET(k, v) => {
            out.push('{');
            out.push('"');
            out.push('S');
            out.push('E');
            out.push('T');
            out.push('"');
            out.push(':');
            out.push('[');
            out.push('"');
            proof {
                assert(out@ =~= set_prefix());
            }
            let kc = str_to_chars(k.as_str());
            push_escaped(&mut out, &kc);
            out.push('"');
            out.push(',');
            out.push('"');
            proof {
                assert(out@ =~= set_prefix() + esc(k@) + seq!['"'] + set_mid());
            }
            let vc = str_to_chars(v.as_str());
            push_escaped(&mut out, &vc);
            out.push('"');
            out.push(']');
            out.push('}');
            proof {
                assert(out@ =~= encode_cmd(c@));
            }
        },
        Command::RM(k) => {
            out.push('{');
            out.push('"');
            out.push('R');
            out.push('M');
            out.push('"');
            out.push(':');
            out.push('[');
            out.push('"');
            proof {
                assert(out@ =~= rm_prefix());
            }
            let kc = str_to_chars(k.as_str());
            push_escaped(&mut out, &kc);
            out.push('"');
            out.push(']');
            out.push('}');
            proof {
                assert(out@ =~= encode_cmd(c@));
            }
        },
    }
    out
}

/// Reads one quoted string from `data` starting at `start`, just after its
/// opening quote: the unescaped characters and the count of characters
/// consumed, closing quote included.
pub(crate) fn decode_string(data: &Vec<char>, start: usize) -> (r: Option<(Vec<char>, usize)>)
    requires
        start <= data.len(),
    ensures
        r matches Some(p) ==> parse_str(data@.skip(start as int)) == Some((p.0@, p.1 as int)),
        r is None ==> (parse_str(data@.skip(start as int)) is None),
{
    let mut i: usize = start;
    let mut out: Vec<char> = Vec::new();
    loop
        invariant
            start <= i <= data.len(),
            (parse_str(data@.skip(start as int)) is Some) == (parse_str(data@.skip(i as int))
                is Some),
            parse_str(data@.skip(i as int)) matches Some(p) ==> parse_str(
                data@.skip(start as int),
            ) == Some((out@ + p.0, i - start + p.1)),
        decreases data.len() - i,
    {
        if i >= data.len() {
            proof {
                assert(data@.skip(i as int).len() == 0);
            }
            return None;
        }
        let c = data[i];
        proof {
            assert(data@.skip(i as int)[0] == data@[i as int]);
        }
        if c == '"' {
            proof {
                assert(parse_str(data@.skip(i as int)) == Some((Seq::<char>::empty(), 1int)));
                assert(out@ + Seq::<char>::empty() =~= out@);
            }
            return Some((out, i + 1 - start));
        } else if c == '\\' {
            if i + 1 >= data.len() {
                proof {
                    assert(data@.skip(i as int).len() == 1);
                    assert(parse_str(data@.skip(i as int)) is None);
                }
                return None;
            }
            let c2 = data[i + 1];
            proof {
                assert(data@.skip(i as int)[1] == data@[i + 1]);
            }
            if c2 == '"' || c2 == '\\' {
                proof {
                    assert(data@.skip(i as int).skip(2) =~= data@.skip(i + 2));
                    let ghost s_i = data@.skip(i as int);
                    match parse_str(data@.skip(i + 2)) {
                        Some((t, n)) => {
                            assert(parse_str(s_i) == Some((seq![c2] + t, n + 2)));
                            assert(out@ + (seq![c2] + t) =~= out@.push(c2) + t);
                        },
                        None => {
                            assert(parse_str(s_i) is None);
                        },
                    }
                }
                out.push(c2);
                i = i + 2;
            } else {
                proof {
                    assert(parse_str(data@.skip(i as int)) is None);
                }
                return None;
            }
        } else {
            proof {
                assert(data@.skip(i as int).skip(1) =~= data@.skip(i + 1));
                let ghost s_i = data@.skip(i as int);
                match parse_str(data@.skip(i + 1)) {
                    Some((t, n)) => {
                        assert(parse_str(s_i) == Some((seq![c] + t, n + 1)));
                        assert(out@ + (seq![c] + t) =~= out@.push(c) + t);
                    },
                    None => {
                        assert(parse_str(s_i) is None);
                    },
                }
            }
            out.push(c);
            i = i + 1;
        }
    }
}

/// Reads exactly one command record from `data` at `pos`, leaving the
/// cursor at the next record's first character: the record and the count of
/// characters consumed. `Serde` if no record begins there.
pub fn decode_command(data: &Vec<char>, pos: usize) -> (r: Result<(Command, usize), KVStoreError>)
    requires
        pos <= data.len(),
    ensures
        r matches Ok(p) ==> parse_cmd(data@.skip(pos as int)) == Some((p.0@, p.1 as int))
            && 1 <= p.1 && pos + p.1 <= data.len(),
        r matches Err(e) ==> (parse_cmd(data@.skip(pos as int)) is None && e is Serde),
{
    let ghost s = data@.skip(pos as int);
    let n = data.len();
    let set_pref = n - pos >= 9 && data[pos] == '{' && data[pos + 1] == '"' && data[pos + 2]
        == 'S' && data[pos + 3] == 'E' && data[pos + 4] == 'T' && data[pos + 5] == '"' && data[pos
        + 6] == ':' && data[pos + 7] == '[' && data[pos + 8] == '"';
    proof {
        assert forall|j: int| 0 <= j < s.len() implies s[j] == data@[pos + j] by {}
        if set_pref {
            assert(s.take(9) =~= set_prefix());
        }
        if starts_with(s, set_prefix()) {
            assert forall|j: int| 0 <= j < 9 implies s[j] == set_prefix()[j] by {
                assert(s.take(9)[j] == s[j]);
            }
        }
        assert(set_pref == starts_with(s, set_prefix()));
    }
    if set_pref {
        match decode_string(data, pos + 9) {
            None => {
                proof {
                    assert(s.skip(9) =~= data@.skip(pos + 9));
                }
                Err(KVStoreError::Serde(String::from_str("invalid command record")))
            },
            Some((kchars, n1)) => {
                proof {
                    assert(s.skip(9) =~= data@.skip(pos + 9));
                    lemma_parse_str_sound(s.skip(9));
                }
                let after_k = pos + 9 + n1;
                if n - after_k >= 2 && data[after_k] == ',' && data[after_k + 1] == '"' {
                    proof {
                        assert(s[9 + n1 as int] == data@[after_k as int]);
                        assert(s[9 + n1 as int + 1] == data@[after_k + 1]);
                    }
                    match decode_string(data, after_k + 2) {
                        None => {
                            proof {
                                assert(s.skip(9 + n1 as int + 2) =~= data@.skip(after_k + 2));
                            }
                            Err(KVStoreError::Serde(String::from_str("invalid command record")))
                        },
                        Some((vchars, n2)) => {
                            proof {
                                assert(s.skip(9 + n1 as int + 2) =~= data@.skip(after_k + 2));
                                lemma_parse_str_sound(s.skip(9 + n1 as int + 2));
                            }
                            let after_v = after_k + 2 + n2;
                            if n - after_v >= 2 && data[after_v] == ']' && data[after_v + 1]
                                == '}' {
                                proof {
                                    assert(s[9 + n1 as int + 2 + n2 as int] == data@[after_v as int]);
                                    assert(s[9 + n1 as int + 2 + n2 as int + 1] == data@[after_v
                                        + 1]);
                                }
                                let cmd = Command::SET(
                                    chars_to_string(&kchars),
                                    chars_to_string(&vchars),
                                );
                                Ok((cmd, after_v + 2 - pos))
                            } else {
                                Err(
                                    KVStoreError::Serde(
                                        String::from_str("invalid command record"),
                                    ),
                                )
                            }
                        },
                    }
                } else {
                    Err(KVStoreError::Serde(String::from_str("invalid command record")))
                }
            },
        }
    } else {
        let rm_pref = n - pos >= 8 && data[pos] == '{' && data[pos + 1] == '"' && data[pos + 2]
            == 'R' && data[pos + 3] == 'M' && data[pos + 4] == '"' && data[pos + 5] == ':'
            && data[pos + 6] == '[' && data[pos + 7] == '"';
        proof {
            if rm_pref {
                assert(s.take(8) =~= rm_prefix());
            }
            if starts_with(s, rm_prefix()) {
                assert forall|j: int| 0 <= j < 8 implies s[j] == rm_prefix()[j] by {
                    assert(s.take(8)[j] == s[j]);
                }
            }
            assert(rm_pref == starts_with(s, rm_prefix()));
        }
        if rm_pref {
            match decode_string(data, pos + 8) {
                None => {
                    proof {
                        assert(s.skip(8) =~= data@.skip(pos + 8));
                    }
                    Err(KVStoreError::Serde(String::from_str("invalid command record")))
                },
                Some((kchars, n1)) => {
                    proof {
                        assert(s.skip(8) =~= data@.skip(pos + 8));
                        lemma_parse_str_sound(s.skip(8));
                    }
                    let after_k = pos + 8 + n1;
                    if n - after_k >= 2 && data[after_k] == ']' && data[after_k + 1] == '}' {
                        proof {
                            assert(s[8 + n1 as int] == data@[after_k as int]);
                            assert(s[8 + n1 as int + 1] == data@[after_k + 1]);
                        }
                        let cmd = Command::RM(chars_to_string(&kchars));
                        Ok((cmd, after_k + 2 - pos))
                    } else {
                        Err(KVStoreError::Serde(String::from_str("invalid command record")))
                    }
                },
            }
        } else {
            Err(KVStoreError::Serde(String::from_str("invalid command record")))
        }
    }
}

} // verus!
