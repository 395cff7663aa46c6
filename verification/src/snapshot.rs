//! The persisted snapshot: the registry as one JSON document,
//! `{"servers":[...]}`. The writer renders the canonical form below; the
//! reader accepts exactly that form and fails on anything else, so a
//! malformed file is reported rather than silently emptied. Parsing a
//! rendered registry is proved to yield the registry back.

use vstd::prelude::*;

use crate::errors::CorruptStateError;
use crate::registry::{valid_registry, SSHRegistry, Server, ServerModel};
use crate::text::{
    dec_digits, digits_val, is_digit, push_char, split_digits, lemma_dec_digits_form,
    lemma_digits_val_of_dec_digits, lemma_skip_skip, lemma_split_digits_exact,
};

verus! {

// ---------------------------------------------------------------------------
// The rendered form.
// ---------------------------------------------------------------------------
/// How one character is written inside a JSON string.
pub open spec fn escape_char(c: char) -> Seq<char> {
    if c == '"' {
        seq!['\\', '"']
    } else if c == '\\' {
        seq!['\\', '\\']
    } else if c == '\n' {
        seq!['\\', 'n']
    } else if c == '\t' {
        seq!['\\', 't']
    } else if c == '\r' {
        seq!['\\', 'r']
    } else {
        seq![c]
    }
}

/// A string's characters, each escaped.
pub open spec fn escape_string(s: Seq<char>) -> Seq<char>
    decreases s.len(),
{
    if s.len() == 0 {
        Seq::empty()
    } else {
        escape_char(s[0]) + escape_string(s.drop_first())
    }
}

/// A JSON string literal: the escaped characters between quotes.
pub open spec fn render_string(s: Seq<char>) -> Seq<char> {
    seq!['"'] + escape_string(s) + seq!['"']
}

/// The key field: `null`, or the key path as a string.
pub open spec fn render_key(k: Option<Seq<char>>) -> Seq<char> {
    match k {
        None => "null"@,
        Some(s) => render_string(s),
    }
}

/// One profile as a JSON object.
pub open spec fn render_server(m: ServerModel) -> Seq<char> {
    "{\"id\":"@ + dec_digits(m.id as nat) + ",\"name\":"@ + render_string(m.name) + ",\"user\":"@
        + render_string(m.user) + ",\"host\":"@ + render_string(m.host)
        + ",\"existing_ssh_key\":"@ + render_key(m.existing_ssh_key) + "}"@
}

/// The profile list, comma-separated.
pub open spec fn render_servers(s: Seq<ServerModel>) -> Seq<char>
    decreases s.len(),
{
    if s.len() == 0 {
        Seq::empty()
    } else if s.len() == 1 {
        render_server(s[0])
    } else {
        render_server(s[0]) + ","@ + render_servers(s.drop_first())
    }
}

/// The whole snapshot document.
pub open spec fn render_registry(s: Seq<ServerModel>) -> Seq<char> {
    "{\"servers\":["@ + render_servers(s) + "]}"@
}

proof fn lemma_escape_string_snoc(t: Seq<char>, c: char)
    ensures
        escape_string(t.push(c)) == escape_string(t) + escape_char(c),
    decreases t.len(),
{
    if t.len() == 0 {
        assert(t.push(c)[0] == c);
        assert(t.push(c).drop_first() =~= Seq::<char>::empty());
        assert(escape_string(t.push(c)) == escape_char(c) + escape_string(
            Seq::<char>::empty(),
        ));
        assert(escape_char(c) + Seq::<char>::empty() =~= escape_char(c));
        assert(escape_string(t) + escape_char(c) =~= escape_char(c));
    } else {
        assert(t.push(c)[0] == t[0]);
        assert(t.push(c).drop_first() =~= t.drop_first().push(c));
        lemma_escape_string_snoc(t.drop_first(), c);
        assert(escape_string(t.push(c)) =~= escape_string(t) + escape_char(c));
    }
}

proof fn lemma_render_servers_snoc(s: Seq<ServerModel>, m: ServerModel)
    requires
        s.len() >= 1,
    ensures
        render_servers(s.push(m)) == render_servers(s) + ","@ + render_server(m),
    decreases s.len(),
{
    if s.len() == 1 {
        assert(s.push(m).drop_first() =~= seq![m]);
        assert(render_servers(seq![m]) == render_server(m));
        assert(s.push(m)[0] == s[0]);
        assert(render_servers(s.push(m)) =~= render_servers(s) + ","@ + render_server(m));
    } else {
        assert(s.push(m)[0] == s[0]);
        assert(s.push(m).drop_first() =~= s.drop_first().push(m));
        lemma_render_servers_snoc(s.drop_first(), m);
        assert(render_servers(s.push(m)) =~= render_servers(s) + ","@ + render_server(m));
    }
}

// ---------------------------------------------------------------------------
// The accepted form: each function consumes a prefix of the text and yields
// the value it denotes together with the rest of the text.
// ---------------------------------------------------------------------------
/// Consumes `lit` itself, and nothing else.
pub open spec fn parse_lit(t: Seq<char>, lit: Seq<char>) -> Option<Seq<char>> {
    if lit.len() <= t.len() && t.take(lit.len() as int) == lit {
        Some(t.skip(lit.len() as int))
    } else {
        None
    }
}

/// Consumes a decimal numeral: digits only, no leading zero, value in range.
pub open spec fn parse_number(t: Seq<char>) -> Option<(u32, Seq<char>)> {
    let (d, r) = split_digits(t);
    if d.len() == 0 {
        None
    } else if d.len() > 1 && d[0] == '0' {
        None
    } else if digits_val(d) > u32::MAX {
        None
    } else {
        Some((digits_val(d) as u32, r))
    }
}

/// The character an escape code after a backslash stands for.
pub open spec fn unescape_code(c: char) -> Option<char> {
    if c == '"' {
        Some('"')
    } else if c == '\\' {
        Some('\\')
    } else if c == '/' {
        Some('/')
    } else if c == 'n' {
        Some('\n')
    } else if c == 't' {
        Some('\t')
    } else if c == 'r' {
        Some('\r')
    } else if c == 'b' {
        Some('\u{0008}')
    } else if c == 'f' {
        Some('\u{000C}')
    } else {
        None
    }
}

/// Consumes the body of a string literal up to and including the closing
/// quote, undoing the escapes.
pub open spec fn parse_string_body(t: Seq<char>) -> Option<(Seq<char>, Seq<char>)>
    decreases t.len(),
{
    if t.len() == 0 {
        None
    } else if t[0] == '"' {
        Some((Seq::empty(), t.skip(1)))
    } else if t[0] == '\\' {
        if t.len() < 2 {
            None
        } else {
            match unescape_code(t[1]) {
                None => None,
                Some(c) => match parse_string_body(t.skip(2)) {
                    None => None,
                    Some((v, r)) => Some((seq![c] + v, r)),
                },
            }
        }
    } else {
        match parse_string_body(t.skip(1)) {
            None => None,
            Some((v, r)) => Some((seq![t[0]] + v, r)),
        }
    }
}

/// Consumes a whole string literal.
pub open spec fn parse_string(t: Seq<char>) -> Option<(Seq<char>, Seq<char>)> {
    if t.len() > 0 && t[0] == '"' {
        parse_string_body(t.skip(1))
    } else {
        None
    }
}

/// Consumes the key field: `null` or a string literal.
pub open spec fn parse_key(t: Seq<char>) -> Option<(Option<Seq<char>>, Seq<char>)> {
    if t.len() > 0 && t[0] == 'n' {
        match parse_lit(t, "null"@) {
            Some(r) => Some((None, r)),
            None => None,
        }
    } else {
        match parse_string(t) {
            Some((v, r)) => Some((Some(v), r)),
            None => None,
        }
    }
}

/// Consumes one profile object.
pub open spec fn parse_server(t: Seq<char>) -> Option<(ServerModel, Seq<char>)> {
    match parse_lit(t, "{\"id\":"@) {
        None => None,
        Some(t1) => match parse_number(t1) {
            None => None,
            Some((id, t2)) => match parse_lit(t2, ",\"name\":"@) {
                None => None,
                Some(t3) => match parse_string(t3) {
                    None => None,
                    Some((name, t4)) => match parse_lit(t4, ",\"user\":"@) {
                        None => None,
                        Some(t5) => match parse_string(t5) {
                            None => None,
                            Some((user, t6)) => match parse_lit(t6, ",\"host\":"@) {
                                None => None,
                                Some(t7) => match parse_string(t7) {
                                    None => None,
                                    Some((host, t8)) => match parse_lit(
                                        t8,
                                        ",\"existing_ssh_key\":"@,
                                    ) {
                                        None => None,
                                        Some(t9) => match parse_key(t9) {
                                            None => None,
                                            Some((key, t10)) => match parse_lit(t10, "}"@) {
                                                None => None,
                                                Some(t11) => Some(
                                                    (
                                                        ServerModel {
                                                            id: id,
                                                            name: name,
                                                            user: user,
                                                            host: host,
                                                            existing_ssh_key: key,
                                                        },
                                                        t11,
                                                    ),
                                                ),
                                            },
                                        },
                                    },
                                },
                            },
                        },
                    },
                },
            },
        },
    }
}

/// Consumes a comma-separated run of profile objects.
pub open spec fn parse_servers(t: Seq<char>) -> Option<(Seq<ServerModel>, Seq<char>)>
    decreases t.len(),
{
    match parse_server(t) {
        None => None,
        Some((m, r)) => if r.len() > 0 && r[0] == ',' {
            if r.len() <= t.len() {
                match parse_servers(r.skip(1)) {
                    None => None,
                    Some((ms, r2)) => Some((seq![m] + ms, r2)),
                }
            } else {
                None
            }
        } else {
            Some((seq![m], r))
        },
    }
}

/// The registries a snapshot document denotes; `None` is a malformed one.
pub open spec fn parse_registry(t: Seq<char>) -> Option<Seq<ServerModel>> {
    match parse_lit(t, "{\"servers\":["@) {
        None => None,
        Some(t1) => if t1.len() > 0 && t1[0] == ']' {
            match parse_lit(t1, "]}"@) {
                Some(t2) => if t2.len() == 0 {
                    Some(Seq::<ServerModel>::empty())
                } else {
                    None
                },
                None => None,
            }
        } else {
            match parse_servers(t1) {
                None => None,
                Some((ms, t2)) => match parse_lit(t2, "]}"@) {
                    Some(t3) => if t3.len() == 0 {
                        Some(ms)
                    } else {
                        None
                    },
                    None => None,
                },
            }
        },
    }
}

/// What the reader accepts: a well-formed document whose profile list also
/// satisfies the registry invariant.
pub open spec fn snapshot_models(t: Seq<char>) -> Option<Seq<ServerModel>> {
    match parse_registry(t) {
        None => None,
        Some(ms) => if valid_registry(ms) {
            Some(ms)
        } else {
            None
        },
    }
}

// ---------------------------------------------------------------------------
// The writer.
// ---------------------------------------------------------------------------
fn append_escaped(out: &mut String, s: &str)
    ensures
        final(out)@ == old(out)@ + escape_string(s@),
{
    let n = s.unicode_len();
    let mut i: usize = 0;
    assert(s@.take(0) =~= Seq::<char>::empty());
    assert(old(out)@ + escape_string(s@.take(0)) =~= old(out)@);
    while i < n
        invariant
            n == s@.len(),
            0 <= i <= n,
            out@ == old(out)@ + escape_string(s@.take(i as int)),
        decreases n - i,
    {
        let c = s.get_char(i);
        if c == '"' {
            push_char(out, '\\');
            push_char(out, '"');
        } else if c == '\\' {
            push_char(out, '\\');
            push_char(out, '\\');
        } else if c == '\n' {
            push_char(out, '\\');
            push_char(out, 'n');
        } else if c == '\t' {
            push_char(out, '\\');
            push_char(out, 't');
        } else if c == '\r' {
            push_char(out, '\\');
            push_char(out, 'r');
        } else {
            push_char(out, c);
        }
        proof {
            lemma_escape_string_snoc(s@.take(i as int), c);
            assert(s@.take(i + 1) =~= s@.take(i as int).push(c));
            assert(out@ =~= old(out)@ + escape_string(s@.take(i + 1)));
        }
        i += 1;
    }
    assert(s@.take(n as int) =~= s@);
}

fn append_json_string(out: &mut String, s: &str)
    ensures
        final(out)@ == old(out)@ + render_string(s@),
{
    push_char(out, '"');
    append_escaped(out, s);
    push_char(out, '"');
    assert(out@ =~= old(out)@ + render_string(s@));
}

fn append_server(out: &mut String, s: &Server)
    ensures
        final(out)@ == old(out)@ + render_server(s@),
{
    out.append("{\"id\":");
    crate::text::append_dec(out, s.id);
    out.append(",\"name\":");
    append_json_string(out, s.name.as_str());
    out.append(",\"user\":");
    append_json_string(out, s.user.as_str());
    out.append(",\"host\":");
    append_json_string(out, s.host.as_str());
    out.append(",\"existing_ssh_key\":");
    match &s.existing_ssh_key {
        None => out.append("null"),
        Some(k) => append_json_string(out, k.as_str()),
    }
    out.append("}");
    assert(out@ =~= old(out)@ + render_server(s@));
}

/// Renders the snapshot document for `registry`; writing this string to the
/// store and reading it back yields the registry again.
pub fn to_json(registry: &SSHRegistry) -> (r: String)
    ensures
        r@ == render_registry(registry@),
{
    let mut out = String::from_str("{\"servers\":[");
    let servers = registry.servers();
    let n = servers.len();
    let mut i: usize = 0;
    assert(registry@.take(0) =~= Seq::<ServerModel>::empty());
    while i < n
        invariant
            n == servers@.len(),
            servers.deep_view() == registry@,
            n == registry@.len(),
            0 <= i <= n,
            out@ == "{\"servers\":["@ + render_servers(registry@.take(i as int)),
        decreases n - i,
    {
        if i > 0 {
            push_char(&mut out, ',');
            let ghost prefix = registry@.take(i as int);
            append_server(&mut out, &servers[i]);
            proof {
                lemma_render_servers_snoc(prefix, registry@[i as int]);
                assert(registry@.take(i + 1) =~= prefix.push(registry@[i as int]));
                assert(","@ =~= seq![',']) by {
                    reveal_strlit(",");
                }
                assert(out@ =~= "{\"servers\":["@ + render_servers(registry@.take(i + 1)));
            }
        } else {
            append_server(&mut out, &servers[i]);
            proof {
                assert(registry@.take(1) =~= seq![registry@[0]]);
                assert(render_servers(seq![registry@[0]]) == render_server(registry@[0]));
                assert(out@ =~= "{\"servers\":["@ + render_servers(registry@.take(i + 1)));
            }
        }
        i += 1;
    }
    out.append("]}");
    assert(registry@.take(n as int) =~= registry@);
    assert(out@ =~= render_registry(registry@));
    out
}

// ---------------------------------------------------------------------------
// The reader.
// ---------------------------------------------------------------------------
fn p_lit(s: &str, i: usize, lit: &str) -> (r: Option<usize>)
    requires
        i <= s@.len(),
    ensures
        match r {
            Some(j) => i <= j <= s@.len() && j == i + lit@.len() && parse_lit(
                s@.skip(i as int),
                lit@,
            ) == Some(s@.skip(j as int)),
            None => parse_lit(s@.skip(i as int), lit@) is None,
        },
{
    let n = s.unicode_len();
    let m = lit.unicode_len();
    if n - i < m {
        assert(s@.skip(i as int).len() < lit@.len());
        return None;
    }
    let mut k: usize = 0;
    while k < m
        invariant
            n == s@.len(),
            m == lit@.len(),
            i <= n,
            i + m <= n,
            0 <= k <= m,
            forall|q: int| 0 <= q < k ==> s@.skip(i as int)[q] == lit@[q],
        decreases m - k,
    {
        let a = s.get_char(i + k);
        let b = lit.get_char(k);
        proof {
            assert(s@.skip(i as int)[k as int] == s@[i + k]);
        }
        if a != b {
            proof {
                let t = s@.skip(i as int);
                assert(t.take(m as int)[k as int] == t[k as int]);
                assert(t.take(m as int) != lit@);
            }
            return None;
        }
        k += 1;
    }
    proof {
        let t = s@.skip(i as int);
        assert(t.take(m as int) =~= lit@);
        lemma_skip_skip(s@, i as int, m as int);
    }
    Some(i + m)
}

fn p_number(s: &str, i: usize) -> (r: Option<(u32, usize)>)
    requires
        i <= s@.len(),
    ensures
        match r {
            Some((v, j)) => i < j <= s@.len() && parse_number(s@.skip(i as int)) == Some(
                (v, s@.skip(j as int)),
            ),
            None => parse_number(s@.skip(i as int)) is None,
        },
{
    let (val, end) = crate::text::scan_digits(s, i);
    let ghost t = s@.skip(i as int);
    let ghost d = split_digits(t).0;
    let ghost rest = split_digits(t).1;
    if end == i {
        assert(d.len() == 0);
        return None;
    }
    proof {
        assert(d.len() > 0);
        assert(t.len() > 0 && is_digit(t[0]) && d[0] == t[0]);
        assert(t[0] == s@[i as int]);
        crate::text::lemma_split_digits_rest(t);
        lemma_skip_skip(s@, i as int, d.len() as int);
        assert(rest == s@.skip(end as int));
    }
    let first = s.get_char(i);
    if first == '0' && end - i > 1 {
        assert(d.len() > 1 && d[0] == '0');
        return None;
    }
    if val > 0xFFFF_FFFFu64 {
        assert(digits_val(d) > u32::MAX);
        return None;
    }
    assert(digits_val(d) <= u32::MAX);
    Some((val as u32, end))
}

proof fn lemma_parse_string_unfold(s: Seq<char>, i: int)
    requires
        0 <= i < s.len(),
        s[i] == '"',
    ensures
        parse_string(s.skip(i)) == parse_string_body(s.skip(i + 1)),
{
    assert(s.skip(i).len() > 0);
    assert(s.skip(i)[0] == s[i]);
    lemma_skip_skip(s, i, 1);
}

fn p_string(s: &str, i: usize) -> (r: Option<(String, usize)>)
    requires
        i <= s@.len(),
    ensures
        match r {
            Some((v, j)) => i < j <= s@.len() && parse_string(s@.skip(i as int)) == Some(
                (v@, s@.skip(j as int)),
            ),
            None => parse_string(s@.skip(i as int)) is None,
        },
{
    let n = s.unicode_len();
    if i >= n {
        assert(s@.skip(i as int).len() == 0);
        return None;
    }
    if s.get_char(i) != '"' {
        assert(s@.skip(i as int)[0] == s@[i as int]);
        return None;
    }
    assert(s@.skip(i as int)[0] == s@[i as int]);
    proof {
        lemma_skip_skip(s@, i as int, 1);
    }
    let mut j: usize = i + 1;
    let mut acc = String::new();
    loop
        invariant
            n == s@.len(),
            i < n,
            s@[i as int] == '"',
            i + 1 <= j <= n,
            ({
                let t0 = s@.skip(i + 1);
                match parse_string_body(s@.skip(j as int)) {
                    Some((v, r)) => parse_string_body(t0) == Some((acc@ + v, r)),
                    None => parse_string_body(t0) is None,
                }
            }),
        ensures
            n == s@.len(),
            i < n,
            s@[i as int] == '"',
            i + 1 <= j < n,
            parse_string_body(s@.skip(i + 1)) == Some((acc@, s@.skip(j + 1))),
        decreases n - j,
    {
        if j >= n {
            assert(s@.skip(j as int).len() == 0);
            proof {
                lemma_parse_string_unfold(s@, i as int);
            }
            return None;
        }
        let c = s.get_char(j);
        assert(s@.skip(j as int)[0] == s@[j as int]);
        if c == '"' {
            proof {
                lemma_skip_skip(s@, j as int, 1);
                let t0 = s@.skip(i + 1);
                assert(parse_string_body(s@.skip(j as int)) == Some(
                    (Seq::<char>::empty(), s@.skip(j + 1)),
                ));
                assert(acc@ + Seq::<char>::empty() =~= acc@);
            }
            break ;
        } else if c == '\\' {
            if j + 1 >= n {
                assert(s@.skip(j as int).len() < 2);
                proof {
                    lemma_parse_string_unfold(s@, i as int);
                }
                return None;
            }
            let e = s.get_char(j + 1);
            assert(s@.skip(j as int)[1] == s@[j + 1]);
            let decoded: char;
            if e == '"' {
                decoded = '"';
            } else if e == '\\' {
                decoded = '\\';
            } else if e == '/' {
                decoded = '/';
            } else if e == 'n' {
                decoded = '\n';
            } else if e == 't' {
                decoded = '\t';
            } else if e == 'r' {
                decoded = '\r';
            } else if e == 'b' {
                decoded = '\u{0008}';
            } else if e == 'f' {
                decoded = '\u{000C}';
            } else {
                assert(unescape_code(s@.skip(j as int)[1]) is None);
                proof {
                    lemma_parse_string_unfold(s@, i as int);
                }
                return None;
            }
            proof {
                assert(unescape_code(s@.skip(j as int)[1]) == Some(decoded));
                lemma_skip_skip(s@, j as int, 2);
            }
            let ghost old_acc = acc@;
            push_char(&mut acc, decoded);
            proof {
                let t0 = s@.skip(i + 1);
                match parse_string_body(s@.skip(j + 2)) {
                    Some((v, r)) => {
                        assert(parse_string_body(s@.skip(j as int)) == Some(
                            (seq![decoded] + v, r),
                        ));
                        assert(old_acc + (seq![decoded] + v) =~= acc@ + v);
                    },
                    None => {
                        assert(parse_string_body(s@.skip(j as int)) is None);
                    },
                }
            }
            j += 2;
        } else {
            proof {
                lemma_skip_skip(s@, j as int, 1);
            }
            let ghost old_acc = acc@;
            push_char(&mut acc, c);
            proof {
                let t0 = s@.skip(i + 1);
                match parse_string_body(s@.skip(j + 1)) {
                    Some((v, r)) => {
                        assert(parse_string_body(s@.skip(j as int)) == Some((seq![c] + v, r)));
                        assert(old_acc + (seq![c] + v) =~= acc@ + v);
                    },
                    None => {
                        assert(parse_string_body(s@.skip(j as int)) is None);
                    },
                }
            }
            j += 1;
        }
    }
    proof {
        lemma_skip_skip(s@, j as int, 1);
        let t = s@.skip(i as int);
        assert(t.len() > 0 && t[0] == s@[i as int]);
        lemma_skip_skip(s@, i as int, 1);
        assert(parse_string(t) == parse_string_body(s@.skip(i + 1)));
    }
    Some((acc, j + 1))
}

fn p_key(s: &str, i: usize) -> (r: Option<(Option<String>, usize)>)
    requires
        i <= s@.len(),
    ensures
        match r {
            Some((v, j)) => i < j <= s@.len() && parse_key(s@.skip(i as int)) == Some(
                (v.deep_view(), s@.skip(j as int)),
            ),
            None => parse_key(s@.skip(i as int)) is None,
        },
{
    let n = s.unicode_len();
    if i < n && s.get_char(i) == 'n' {
        assert(s@.skip(i as int)[0] == s@[i as int]);
        proof {
            reveal_strlit("null");
        }
        match p_lit(s, i, "null") {
            Some(j) => Some((None, j)),
            None => None,
        }
    } else {
        assert(i < s@.len() ==> s@.skip(i as int)[0] == s@[i as int]);
        assert(!(s@.skip(i as int).len() > 0 && s@.skip(i as int)[0] == 'n'));
        match p_string(s, i) {
            Some((v, j)) => Some((Some(v), j)),
            None => None,
        }
    }
}

fn p_server(s: &str, i: usize) -> (r: Option<(Server, usize)>)
    requires
        i <= s@.len(),
    ensures
        match r {
            Some((srv, j)) => i < j <= s@.len() && parse_server(s@.skip(i as int)) == Some(
                (srv@, s@.skip(j as int)),
            ),
            None => parse_server(s@.skip(i as int)) is None,
        },
{
    let i1 = match p_lit(s, i, "{\"id\":") {
        None => {
            return None;
        },
        Some(j) => j,
    };
    let (id, i2) = match p_number(s, i1) {
        None => {
            return None;
        },
        Some(x) => x,
    };
    let i3 = match p_lit(s, i2, ",\"name\":") {
        None => {
            return None;
        },
        Some(j) => j,
    };
    let (name, i4) = match p_string(s, i3) {
        None => {
            return None;
        },
        Some(x) => x,
    };
    let i5 = match p_lit(s, i4, ",\"user\":") {
        None => {
            return None;
        },
        Some(j) => j,
    };
    let (user, i6) = match p_string(s, i5) {
        None => {
            return None;
        },
        Some(x) => x,
    };
    let i7 = match p_lit(s, i6, ",\"host\":") {
        None => {
            return None;
        },
        Some(j) => j,
    };
    let (host, i8) = match p_string(s, i7) {
        None => {
            return None;
        },
        Some(x) => x,
    };
    let i9 = match p_lit(s, i8, ",\"existing_ssh_key\":") {
        None => {
            return None;
        },
        Some(j) => j,
    };
    let (key, i10) = match p_key(s, i9) {
        None => {
            return None;
        },
        Some(x) => x,
    };
    let i11 = match p_lit(s, i10, "}") {
        None => {
            return None;
        },
        Some(j) => j,
    };
    let srv = Server { id, name, user, host, existing_ssh_key: key };
    Some((srv, i11))
}

fn p_servers(s: &str, i: usize) -> (r: Option<(Vec<Server>, usize)>)
    requires
        i <= s@.len(),
    ensures
        match r {
            Some((vec, j)) => i <= j <= s@.len() && parse_servers(s@.skip(i as int)) == Some(
                (vec.deep_view(), s@.skip(j as int)),
            ),
            None => parse_servers(s@.skip(i as int)) is None,
        },
{
    let n = s.unicode_len();
    let mut acc: Vec<Server> = Vec::new();
    let mut j: usize = i;
    assert(acc.deep_view() =~= Seq::<ServerModel>::empty());
    loop
        invariant
            n == s@.len(),
            i <= j <= n,
            ({
                match parse_servers(s@.skip(j as int)) {
                    Some((ms, r)) => parse_servers(s@.skip(i as int)) == Some(
                        (acc.deep_view() + ms, r),
                    ),
                    None => parse_servers(s@.skip(i as int)) is None,
                }
            }),
        decreases n - j,
    {
        let (srv, j2) = match p_server(s, j) {
            None => {
                return None;
            },
            Some(x) => x,
        };
        if j2 < n && s.get_char(j2) == ',' {
            proof {
                assert(s@.skip(j2 as int)[0] == s@[j2 as int]);
                lemma_skip_skip(s@, j2 as int, 1);
                let t = s@.skip(j as int);
                let rr = s@.skip(j2 as int);
                assert(rr.len() <= t.len());
                let old_acc = acc.deep_view();
                match parse_servers(s@.skip(j2 + 1)) {
                    Some((ms, r2)) => {
                        assert(parse_servers(t) == Some((seq![srv@] + ms, r2)));
                        assert(old_acc.push(srv@) + ms =~= old_acc + (seq![srv@] + ms));
                    },
                    None => {
                        assert(parse_servers(t) is None);
                    },
                }
            }
            acc.push(srv);
            j = j2 + 1;
        } else {
            proof {
                let t = s@.skip(j as int);
                let rr = s@.skip(j2 as int);
                assert(j2 < n ==> rr[0] == s@[j2 as int]);
                assert(!(rr.len() > 0 && rr[0] == ','));
                assert(parse_servers(t) == Some((seq![srv@], rr)));
                let old_acc = acc.deep_view();
                assert(old_acc.push(srv@) =~= old_acc + seq![srv@]);
            }
            acc.push(srv);
            return Some((acc, j2));
        }
    }
}

/// Reads a snapshot document back into a registry. Every malformed document,
/// and every well-formed one whose profiles break the registry invariant, is
/// reported as corrupt; nothing is silently dropped.
pub fn from_json(s: &str) -> (r: Result<SSHRegistry, CorruptStateError>)
    ensures
        match r {
            Ok(reg) => snapshot_models(s@) == Some(reg@) && reg.wf(),
            Err(e) => snapshot_models(s@) is None,
        },
{
    let n = s.unicode_len();
    assert(s@.skip(0) =~= s@);
    let start = match p_lit(s, 0, "{\"servers\":[") {
        None => {
            return Err(CorruptStateError {  });
        },
        Some(j) => j,
    };
    if start < n && s.get_char(start) == ']' {
        assert(s@.skip(start as int)[0] == s@[start as int]);
        match p_lit(s, start, "]}") {
            None => {
                return Err(CorruptStateError {  });
            },
            Some(j) => {
                if j == n {
                    assert(s@.skip(j as int).len() == 0);
                    let reg = SSHRegistry::empty();
                    proof {
                        assert(valid_registry(Seq::<ServerModel>::empty()));
                        assert(reg@ == Seq::<ServerModel>::empty());
                    }
                    return Ok(reg);
                } else {
                    assert(s@.skip(j as int).len() > 0);
                    return Err(CorruptStateError {  });
                }
            },
        }
    }
    assert(start < s@.len() ==> s@.skip(start as int)[0] == s@[start as int]);
    assert(!(s@.skip(start as int).len() > 0 && s@.skip(start as int)[0] == ']'));
    let (vec, j) = match p_servers(s, start) {
        None => {
            return Err(CorruptStateError {  });
        },
        Some(x) => x,
    };
    let j2 = match p_lit(s, j, "]}") {
        None => {
            return Err(CorruptStateError {  });
        },
        Some(x) => x,
    };
    if j2 != n {
        assert(s@.skip(j2 as int).len() > 0);
        return Err(CorruptStateError {  });
    }
    assert(s@.skip(j2 as int).len() == 0);
    match SSHRegistry::from_servers(vec) {
        Ok(reg) => Ok(reg),
        Err(_) => Err(CorruptStateError {  }),
    }
}

// ---------------------------------------------------------------------------
// The round trip: reading back what the writer rendered yields it exactly.
// ---------------------------------------------------------------------------
proof fn lemma_parse_lit_exact(lit: Seq<char>, rest: Seq<char>)
    ensures
        parse_lit(lit + rest, lit) == Some(rest),
{
    let t = lit + rest;
    assert(t.take(lit.len() as int) =~= lit);
    assert(t.skip(lit.len() as int) =~= rest);
}

proof fn lemma_parse_number_exact(v: u32, rest: Seq<char>)
    requires
        rest.len() == 0 || !is_digit(rest[0]),
    ensures
        parse_number(dec_digits(v as nat) + rest) == Some((v, rest)),
{
    lemma_dec_digits_form(v as nat);
    lemma_split_digits_exact(dec_digits(v as nat), rest);
    lemma_digits_val_of_dec_digits(v as nat);
    if v < 10 {
        assert(dec_digits(v as nat).len() == 1);
    }
}

proof fn lemma_parse_string_body_exact(v: Seq<char>, rest: Seq<char>)
    ensures
        parse_string_body(escape_string(v) + seq!['"'] + rest) == Some((v, rest)),
    decreases v.len(),
{
    let t = escape_string(v) + seq!['"'] + rest;
    if v.len() == 0 {
        assert(escape_string(v) =~= Seq::<char>::empty());
        assert(t[0] == '"');
        assert(t.skip(1) =~= rest);
        assert(Seq::<char>::empty() =~= v);
    } else {
        let c = v[0];
        let e = escape_char(c);
        lemma_parse_string_body_exact(v.drop_first(), rest);
        let t2 = escape_string(v.drop_first()) + seq!['"'] + rest;
        assert(escape_string(v) == e + escape_string(v.drop_first()));
        if c == '"' || c == '\\' || c == '\n' || c == '\t' || c == '\r' {
            assert(e.len() == 2 && e[0] == '\\');
            assert(t[0] == '\\');
            assert(t.len() >= 2);
            assert(t[1] == e[1]);
            assert(unescape_code(e[1]) == Some(c));
            assert(t.skip(2) =~= t2);
            assert(parse_string_body(t) == Some((seq![c] + v.drop_first(), rest)));
            assert(seq![c] + v.drop_first() =~= v);
        } else {
            assert(e.len() == 1 && e[0] == c);
            assert(t[0] == c);
            assert(c != '"' && c != '\\');
            assert(t.skip(1) =~= t2);
            assert(parse_string_body(t) == Some((seq![c] + v.drop_first(), rest)));
            assert(seq![c] + v.drop_first() =~= v);
        }
    }
}

proof fn lemma_parse_string_exact(v: Seq<char>, rest: Seq<char>)
    ensures
        parse_string(render_string(v) + rest) == Some((v, rest)),
{
    let t = render_string(v) + rest;
    assert(t[0] == '"');
    lemma_parse_string_body_exact(v, rest);
    assert(t.skip(1) =~= escape_string(v) + seq!['"'] + rest);
}

proof fn lemma_parse_key_exact(k: Option<Seq<char>>, rest: Seq<char>)
    ensures
        parse_key(render_key(k) + rest) == Some((k, rest)),
{
    reveal_strlit("null");
    match k {
        None => {
            let t = "null"@ + rest;
            assert(t.len() > 0 && t[0] == 'n');
            lemma_parse_lit_exact("null"@, rest);
        },
        Some(v) => {
            let t = render_string(v) + rest;
            assert(t.len() > 0 && t[0] == '"');
            lemma_parse_string_exact(v, rest);
        },
    }
}

#[verifier::rlimit(60)]
proof fn lemma_parse_server_exact(m: ServerModel, rest: Seq<char>)
    ensures
        parse_server(render_server(m) + rest) == Some((m, rest)),
{
    reveal_strlit("{\"id\":");
    reveal_strlit(",\"name\":");
    reveal_strlit(",\"user\":");
    reveal_strlit(",\"host\":");
    reveal_strlit(",\"existing_ssh_key\":");
    reveal_strlit("}");
    let t = render_server(m) + rest;
    let s9 = "}"@ + rest;
    let s8 = render_key(m.existing_ssh_key) + s9;
    let s7 = ",\"existing_ssh_key\":"@ + s8;
    let s6 = render_string(m.host) + s7;
    let s5 = ",\"host\":"@ + s6;
    let s4 = render_string(m.user) + s5;
    let s3 = ",\"user\":"@ + s4;
    let s2 = render_string(m.name) + s3;
    let s1 = ",\"name\":"@ + s2;
    let s0 = dec_digits(m.id as nat) + s1;
    assert(t =~= "{\"id\":"@ + s0);
    lemma_parse_lit_exact("{\"id\":"@, s0);
    assert(s1[0] == ',');
    assert(!is_digit(','));
    lemma_parse_number_exact(m.id, s1);
    lemma_parse_lit_exact(",\"name\":"@, s2);
    lemma_parse_string_exact(m.name, s3);
    lemma_parse_lit_exact(",\"user\":"@, s4);
    lemma_parse_string_exact(m.user, s5);
    lemma_parse_lit_exact(",\"host\":"@, s6);
    lemma_parse_string_exact(m.host, s7);
    lemma_parse_lit_exact(",\"existing_ssh_key\":"@, s8);
    lemma_parse_key_exact(m.existing_ssh_key, s9);
    lemma_parse_lit_exact("}"@, rest);
    assert(parse_server(t) == Some(
        (
            ServerModel {
                id: m.id,
                name: m.name,
                user: m.user,
                host: m.host,
                existing_ssh_key: m.existing_ssh_key,
            },
            rest,
        ),
    ));
}

#[verifier::rlimit(60)]
proof fn lemma_parse_servers_exact(ms: Seq<ServerModel>, rest: Seq<char>)
    requires
        ms.len() >= 1,
        rest.len() > 0,
        rest[0] == ']',
    ensures
        parse_servers(render_servers(ms) + rest) == Some((ms, rest)),
    decreases ms.len(),
{
    reveal_strlit(",");
    let t = render_servers(ms) + rest;
    if ms.len() == 1 {
        assert(render_servers(ms) == render_server(ms[0]));
        lemma_parse_server_exact(ms[0], rest);
        assert(rest[0] != ',');
        assert(seq![ms[0]] =~= ms);
    } else {
        let tail = ms.drop_first();
        let r1 = ","@ + (render_servers(tail) + rest);
        assert(t =~= render_server(ms[0]) + r1);
        lemma_parse_server_exact(ms[0], r1);
        assert(r1[0] == ',');
        assert(r1.len() <= t.len());
        assert(r1.skip(1) =~= render_servers(tail) + rest);
        lemma_parse_servers_exact(tail, rest);
        assert(seq![ms[0]] + tail =~= ms);
    }
}

/// Reading back a rendered snapshot document yields exactly the profile
/// list that was rendered, whatever its contents.
pub proof fn lemma_snapshot_round_trip(s: Seq<ServerModel>)
    ensures
        parse_registry(render_registry(s)) == Some(s),
{
    reveal_strlit("{\"servers\":[");
    reveal_strlit("]}");
    reveal_strlit("{\"id\":");
    let t = render_registry(s);
    let r1 = render_servers(s) + "]}"@;
    assert(t =~= "{\"servers\":["@ + r1);
    lemma_parse_lit_exact("{\"servers\":["@, r1);
    if s.len() == 0 {
        assert(render_servers(s) =~= Seq::<char>::empty());
        assert(r1 =~= "]}"@);
        assert(r1.len() > 0 && r1[0] == ']');
        lemma_parse_lit_exact("]}"@, Seq::<char>::empty());
        assert(r1 =~= "]}"@ + Seq::<char>::empty());
        assert(s =~= Seq::<ServerModel>::empty());
    } else {
        assert(render_server(s[0])[0] == '{');
        assert(render_servers(s)[0] == render_server(s[0])[0]);
        assert(r1[0] == '{');
        assert(!(r1.len() > 0 && r1[0] == ']'));
        assert(("]}"@).len() > 0 && ("]}"@)[0] == ']');
        lemma_parse_servers_exact(s, "]}"@);
        assert(r1 == render_servers(s) + "]}"@);
        lemma_parse_lit_exact("]}"@, Seq::<char>::empty());
        assert("]}"@ + Seq::<char>::empty() =~= "]}"@);
    }
}

/// Load after store: the document the writer renders for a well-formed
/// registry is accepted by the reader and reconstructs that registry
/// exactly, after any sequence of mutations.
pub proof fn lemma_snapshot_load_after_store(s: Seq<ServerModel>)
    requires
        valid_registry(s),
    ensures
        snapshot_models(render_registry(s)) == Some(s),
{
    lemma_snapshot_round_trip(s);
}

} // verus!
