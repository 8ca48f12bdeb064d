//! Rendering the GraphQL query and the JSON request body.
//!
//! The query asks for `number`, `createdAt` and `closedAt` of the next
//! `page_size` issues of a repository, after an optional cursor. Owner and
//! name are interpolated as given: malformed values are delegated to the
//! server, which fails the request. The request body frames the query as
//! `{"query":"..."}` with the query JSON-escaped.

use vstd::prelude::*;
use vstd::string::{StrSliceExecFns, StringExecFns};
use crate::model::RepoRef;

verus! {

/// The GraphQL endpoint queries are POSTed to.
pub fn api_endpoint() -> (r: &'static str)
    ensures
        r@ == "https://api.github.com/graphql"@,
{
    "https://api.github.com/graphql"
}

/// The decimal digit `d` as a character.
pub open spec fn digit_char(d: int) -> char {
    if d == 0 {
        '0'
    } else if d == 1 {
        '1'
    } else if d == 2 {
        '2'
    } else if d == 3 {
        '3'
    } else if d == 4 {
        '4'
    } else if d == 5 {
        '5'
    } else if d == 6 {
        '6'
    } else if d == 7 {
        '7'
    } else if d == 8 {
        '8'
    } else {
        '9'
    }
}

/// The decimal rendering of `n >= 0`, most significant digit first, no
/// leading zeroes.
pub open spec fn dec_seq(n: int) -> Seq<char>
    decreases n,
{
    if n < 10 {
        seq![digit_char(n)]
    } else {
        dec_seq(n / 10) + seq![digit_char(n % 10)]
    }
}

fn push_digit(out: &mut String, d: u64)
    requires
        d < 10,
    ensures
        final(out)@ == old(out)@ + seq![digit_char(d as int)],
{
    if d == 0 {
        out.append("0");
        proof {
            reveal_strlit("0");
            assert("0"@ =~= seq![digit_char(0)]);
        }
    } else if d == 1 {
        out.append("1");
        proof {
            reveal_strlit("1");
            assert("1"@ =~= seq![digit_char(1)]);
        }
    } else if d == 2 {
        out.append("2");
        proof {
            reveal_strlit("2");
            assert("2"@ =~= seq![digit_char(2)]);
        }
    } else if d == 3 {
        out.append("3");
        proof {
            reveal_strlit("3");
            assert("3"@ =~= seq![digit_char(3)]);
        }
    } else if d == 4 {
        out.append("4");
        proof {
            reveal_strlit("4");
            assert("4"@ =~= seq![digit_char(4)]);
        }
    } else if d == 5 {
        out.append("5");
        proof {
            reveal_strlit("5");
            assert("5"@ =~= seq![digit_char(5)]);
        }
    } else if d == 6 {
        out.append("6");
        proof {
            reveal_strlit("6");
            assert("6"@ =~= seq![digit_char(6)]);
        }
    } else if d == 7 {
        out.append("7");
        proof {
            reveal_strlit("7");
            assert("7"@ =~= seq![digit_char(7)]);
        }
    } else if d == 8 {
        out.append("8");
        proof {
            reveal_strlit("8");
            assert("8"@ =~= seq![digit_char(8)]);
        }
    } else {
        out.append("9");
        proof {
            reveal_strlit("9");
            assert("9"@ =~= seq![digit_char(9)]);
        }
    }
}

fn push_hex_digit(out: &mut String, d: u64)
    requires
        d < 16,
    ensures
        final(out)@ == old(out)@ + seq![hex_char(d as int)],
{
    if d < 10 {
        push_digit(out, d);
    } else if d == 10 {
        out.append("a");
        proof {
            reveal_strlit("a");
            assert("a"@ =~= seq![hex_char(10)]);
        }
    } else if d == 11 {
        out.append("b");
        proof {
            reveal_strlit("b");
            assert("b"@ =~= seq![hex_char(11)]);
        }
    } else if d == 12 {
        out.append("c");
        proof {
            reveal_strlit("c");
            assert("c"@ =~= seq![hex_char(12)]);
        }
    } else if d == 13 {
        out.append("d");
        proof {
            reveal_strlit("d");
            assert("d"@ =~= seq![hex_char(13)]);
        }
    } else if d == 14 {
        out.append("e");
        proof {
            reveal_strlit("e");
            assert("e"@ =~= seq![hex_char(14)]);
        }
    } else {
        out.append("f");
        proof {
            reveal_strlit("f");
            assert("f"@ =~= seq![hex_char(15)]);
        }
    }
}

fn push_decimal(out: &mut String, n: u64)
    ensures
        final(out)@ == old(out)@ + dec_seq(n as int),
    decreases n,
{
    if n >= 10 {
        push_decimal(out, n / 10);
    }
    push_digit(out, n % 10);
    proof {
        assert(out@ =~= old(out)@ + dec_seq(n as int));
    }
}

/// The hexadecimal digit `d` as a lowercase character.
pub open spec fn hex_char(d: int) -> char {
    if d < 10 {
        digit_char(d)
    } else if d == 10 {
        'a'
    } else if d == 11 {
        'b'
    } else if d == 12 {
        'c'
    } else if d == 13 {
        'd'
    } else if d == 14 {
        'e'
    } else {
        'f'
    }
}

/// How one character is JSON-escaped inside a string literal: the quote, the
/// backslash and every control character below U+0020 are escaped, the named
/// ones short, the rest as `\u00xx`; all other characters stand as they are.
pub open spec fn esc_char(c: char) -> Seq<char> {
    if c == '"' {
        seq!['\\', '"']
    } else if c == '\\' {
        seq!['\\', '\\']
    } else if c == '\u{8}' {
        seq!['\\', 'b']
    } else if c == '\t' {
        seq!['\\', 't']
    } else if c == '\n' {
        seq!['\\', 'n']
    } else if c == '\u{c}' {
        seq!['\\', 'f']
    } else if c == '\r' {
        seq!['\\', 'r']
    } else if (c as u32) < 0x20 {
        seq!['\\', 'u', '0', '0', hex_char((c as u32) as int / 16), hex_char((c as u32) as int % 16)]
    } else {
        seq![c]
    }
}

/// A character sequence JSON-escaped character by character.
pub open spec fn json_escaped(s: Seq<char>) -> Seq<char>
    decreases s.len(),
{
    if s.len() == 0 {
        Seq::empty()
    } else {
        esc_char(s[0]) + json_escaped(s.drop_first())
    }
}

proof fn lemma_json_escaped_snoc(s: Seq<char>, c: char)
    ensures
        json_escaped(s.push(c)) == json_escaped(s) + esc_char(c),
    decreases s.len(),
{
    if s.len() == 0 {
        assert(s.push(c).drop_first() =~= Seq::<char>::empty());
        assert(json_escaped(Seq::<char>::empty()) =~= Seq::<char>::empty());
        assert(s.push(c)[0] == c);
        assert(json_escaped(s.push(c)) =~= json_escaped(s) + esc_char(c));
    } else {
        assert(s.push(c).drop_first() =~= s.drop_first().push(c));
        lemma_json_escaped_snoc(s.drop_first(), c);
        assert(json_escaped(s.push(c)) =~= json_escaped(s) + esc_char(c));
    }
}

fn push_escaped(out: &mut String, s: &str)
    ensures
        final(out)@ == old(out)@ + json_escaped(s@),
{
    let n = s.unicode_len();
    let mut i: usize = 0;
    while i < n
        invariant
            n == s@.len(),
            i <= n,
            out@ == old(out)@ + json_escaped(s@.subrange(0, i as int)),
        decreases n - i,
    {
        let c = s.get_char(i);
        if c == '"' {
            out.append("\\\"");
            proof {
                reveal_strlit("\\\"");
                assert("\\\""@ =~= esc_char(c));
            }
        } else if c == '\\' {
            out.append("\\\\");
            proof {
                reveal_strlit("\\\\");
                assert("\\\\"@ =~= esc_char(c));
            }
        } else if c == '\u{8}' {
            out.append("\\b");
            proof {
                reveal_strlit("\\b");
                assert("\\b"@ =~= esc_char(c));
            }
        } else if c == '\t' {
            out.append("\\t");
            proof {
                reveal_strlit("\\t");
                assert("\\t"@ =~= esc_char(c));
            }
        } else if c == '\n' {
            out.append("\\n");
            proof {
                reveal_strlit("\\n");
                assert("\\n"@ =~= esc_char(c));
            }
        } else if c == '\u{c}' {
            out.append("\\f");
            proof {
                reveal_strlit("\\f");
                assert("\\f"@ =~= esc_char(c));
            }
        } else if c == '\r' {
            out.append("\\r");
            proof {
                reveal_strlit("\\r");
                assert("\\r"@ =~= esc_char(c));
            }
        } else if (c as u32) < 0x20 {
            let code = c as u32;
            out.append("\\u00");
            proof {
                reveal_strlit("\\u00");
                assert("\\u00"@ =~= seq!['\\', 'u', '0', '0']);
            }
            push_hex_digit(out, (code / 16) as u64);
            push_hex_digit(out, (code % 16) as u64);
            proof {
                assert(out@ =~= old(out)@ + json_escaped(s@.subrange(0, i as int)) + esc_char(c));
            }
        } else {
            let piece = s.substring_char(i, i + 1);
            out.append(piece);
            proof {
                assert(piece@ =~= esc_char(c));
            }
        }
        proof {
            lemma_json_escaped_snoc(s@.subrange(0, i as int), c);
            assert(s@.subrange(0, i + 1) =~= s@.subrange(0, i as int).push(c));
            assert(out@ =~= old(out)@ + json_escaped(s@.subrange(0, i + 1)));
        }
        i = i + 1;
    }
    proof {
        assert(s@.subrange(0, n as int) =~= s@);
    }
}

/// The query string for the next page: `name` and `owner` interpolated as
/// given, `first:` the page size in decimal, and `,after:"<cursor>"` exactly
/// when a cursor is present.
pub open spec fn query_spec(
    owner: Seq<char>,
    name: Seq<char>,
    page_size: u64,
    cursor: Option<Seq<char>>,
) -> Seq<char> {
    "query { repository(name:\""@ + name + "\",owner:\""@ + owner + "\") { issues(first:"@
        + dec_seq(page_size as int) + (match cursor {
        Some(c) => ",after:\""@ + c + "\""@,
        None => Seq::<char>::empty(),
    }) + ") { edges { cursor, node { number, createdAt, closedAt } } } } }"@
}

/// Renders the GraphQL query requesting `number`, `createdAt` and `closedAt`
/// of the next `page_size` issues of `repo`, after `cursor` if one is given.
pub fn build_query(repo: &RepoRef, page_size: u64, cursor: Option<&String>) -> (q: String)
    requires
        1 <= page_size,
    ensures
        q@ == query_spec(
            repo.owner@,
            repo.name@,
            page_size,
            match cursor {
                Some(c) => Some(c@),
                None => None,
            },
        ),
{
    let mut q = String::new();
    q.append("query { repository(name:\"");
    q.append(repo.name.as_str());
    q.append("\",owner:\"");
    q.append(repo.owner.as_str());
    q.append("\") { issues(first:");
    push_decimal(&mut q, page_size);
    match cursor {
        Some(c) => {
            q.append(",after:\"");
            q.append(c.as_str());
            q.append("\"");
        },
        None => {},
    }
    q.append(") { edges { cursor, node { number, createdAt, closedAt } } } } }");
    proof {
        assert(q@ =~= query_spec(
            repo.owner@,
            repo.name@,
            page_size,
            match cursor {
                Some(c) => Some(c@),
                None => None,
            },
        ));
    }
    q
}

/// The JSON request body for a query: `{"query":"<query, JSON-escaped>"}`.
pub open spec fn body_spec(q: Seq<char>) -> Seq<char> {
    "{\"query\":\""@ + json_escaped(q) + "\"}"@
}

/// Frames a query string as the JSON request body the endpoint expects.
pub fn request_body(query: &str) -> (b: String)
    ensures
        b@ == body_spec(query@),
{
    let mut b = String::new();
    b.append("{\"query\":\"");
    push_escaped(&mut b, query);
    b.append("\"}");
    proof {
        assert(b@ =~= body_spec(query@));
    }
    b
}

} // verus!
