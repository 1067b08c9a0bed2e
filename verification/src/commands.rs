//! Parsing of the interactive client's keyboard commands.
//!
//! One line of keyboard input is one command: `subscribe CHANNEL` or
//! `send CHANNEL MESSAGE...`, split on whitespace, with everything after the
//! channel of a `send` joined back together as the message.
use vstd::prelude::*;

verus! {

use vstd::string::{StringExecFns, StrSliceExecFns};
use crate::messages::Request;

/// Whether `c` separates command words: Unicode's White_Space property.
pub open spec fn is_space(c: char) -> bool {
    let u = c as u32;
    ||| (9 <= u && u <= 13)
    ||| u == 32
    ||| u == 0x85
    ||| u == 0xA0
    ||| u == 0x1680
    ||| (0x2000 <= u && u <= 0x200A)
    ||| u == 0x2028
    ||| u == 0x2029
    ||| u == 0x202F
    ||| u == 0x205F
    ||| u == 0x3000
}

/// The whitespace-separated words still to come: `cur` is the word being
/// read, `rest` the characters not yet looked at.
pub open spec fn words_from(cur: Seq<char>, rest: Seq<char>) -> Seq<Seq<char>>
    decreases rest.len(),
{
    if rest.len() == 0 {
        if cur.len() > 0 {
            seq![cur]
        } else {
            Seq::empty()
        }
    } else if is_space(rest[0]) {
        if cur.len() > 0 {
            seq![cur] + words_from(Seq::empty(), rest.drop_first())
        } else {
            words_from(Seq::empty(), rest.drop_first())
        }
    } else {
        words_from(cur.push(rest[0]), rest.drop_first())
    }
}

/// The whitespace-separated words of a command line.
pub open spec fn words(s: Seq<char>) -> Seq<Seq<char>> {
    words_from(Seq::empty(), s)
}

/// The words joined back together with one space between neighbours.
pub open spec fn join_spaces(ws: Seq<Seq<char>>) -> Seq<char>
    decreases ws.len(),
{
    if ws.len() == 0 {
        Seq::empty()
    } else if ws.len() == 1 {
        ws[0]
    } else {
        join_spaces(ws.drop_last()) + seq![' '] + ws.last()
    }
}

/// What an empty command line or `help` prints.
pub open spec fn help_text() -> Seq<char> {
    "Commands:\nsubscribe CHANNEL\nsend CHANNEL MESSAGE..."@
}

/// Whether `c` separates command words.
fn is_space_char(c: char) -> (r: bool)
    ensures
        r == is_space(c),
{
    let u = c as u32;
    (9 <= u && u <= 13) || u == 32 || u == 0x85 || u == 0xA0 || u == 0x1680 || (0x2000 <= u && u
        <= 0x200A) || u == 0x2028 || u == 0x2029 || u == 0x202F || u == 0x205F || u == 0x3000
}

/// Splits a command line into its whitespace-separated words.
fn split_command(s: &str) -> (r: Vec<String>)
    ensures
        r.deep_view() == words(s@),
{
    let total = s.unicode_len();
    let mut r: Vec<String> = Vec::new();
    let mut start: usize = 0;
    let mut in_word: bool = false;
    let mut pos: usize = 0;
    proof {
        assert(s@.skip(0) =~= s@);
        assert(r.deep_view() =~~= Seq::<Seq<char>>::empty());
        assert(r.deep_view() + words_from(Seq::<char>::empty(), s@) =~~= words(s@));
    }
    while pos < total
        invariant
            total == s@.len(),
            pos <= total,
            in_word ==> start < pos,
            words(s@) == r.deep_view() + words_from(
                if in_word {
                    s@.subrange(start as int, pos as int)
                } else {
                    Seq::<char>::empty()
                },
                s@.skip(pos as int),
            ),
        decreases total - pos,
    {
        let c = s.get_char(pos);
        let ghost rest = s@.skip(pos as int);
        proof {
            assert(rest[0] == s@[pos as int]);
            assert(rest.drop_first() =~= s@.skip(pos as int + 1));
        }
        if is_space_char(c) {
            if in_word {
                let ghost cur = s@.subrange(start as int, pos as int);
                let ghost dv0 = r.deep_view();
                let w = s.substring_char(start, pos).to_owned();
                r.push(w);
                proof {
                    assert(r.deep_view() =~~= dv0.push(cur));
                    assert(dv0 + (seq![cur] + words_from(
                        Seq::<char>::empty(),
                        s@.skip(pos as int + 1),
                    )) =~~= dv0.push(cur) + words_from(
                        Seq::<char>::empty(),
                        s@.skip(pos as int + 1),
                    ));
                }
                in_word = false;
            }
        } else {
            if !in_word {
                start = pos;
                in_word = true;
                proof {
                    assert(s@.subrange(pos as int, pos as int) =~= Seq::<char>::empty());
                }
            }
            proof {
                assert(s@.subrange(start as int, pos as int).push(rest[0]) =~= s@.subrange(
                    start as int,
                    pos as int + 1,
                ));
            }
        }
        pos = pos + 1;
    }
    proof {
        assert(s@.skip(total as int) =~= Seq::<char>::empty());
    }
    if in_word {
        let ghost cur = s@.subrange(start as int, total as int);
        let ghost dv0 = r.deep_view();
        let w = s.substring_char(start, total).to_owned();
        r.push(w);
        proof {
            assert(r.deep_view() =~~= dv0.push(cur));
            assert(dv0 + seq![cur] =~~= dv0.push(cur));
        }
    }
    proof {
        assert(r.deep_view() + Seq::<Seq<char>>::empty() =~~= r.deep_view());
    }
    r
}

/// Everything from `ws[from]` on, joined with single spaces.
fn join_words(ws: &Vec<String>, from: usize) -> (r: String)
    requires
        from < ws@.len(),
    ensures
        r@ == join_spaces(ws.deep_view().skip(from as int)),
{
    let n = ws.len();
    let mut r = ws[from].clone();
    let mut k: usize = from + 1;
    proof {
        assert(ws.deep_view().subrange(from as int, from as int + 1) =~= seq![
            ws.deep_view()[from as int],
        ]);
    }
    while k < n
        invariant
            n == ws@.len(),
            from < k <= ws@.len(),
            r@ == join_spaces(ws.deep_view().subrange(from as int, k as int)),
        decreases ws@.len() - k,
    {
        r.append(" ");
        r.append(ws[k].as_str());
        k = k + 1;
        proof {
            reveal_strlit(" ");
            let sub = ws.deep_view().subrange(from as int, k as int);
            assert(sub.drop_last() =~= ws.deep_view().subrange(from as int, k as int - 1));
            assert(sub.last() == ws.deep_view()[k as int - 1]);
            assert(" "@ =~= seq![' ']);
        }
    }
    proof {
        assert(ws.deep_view().subrange(from as int, ws.deep_view().len() as int)
            =~= ws.deep_view().skip(from as int));
    }
    r
}

/// Turns one line of keyboard input into a request.
///
/// `subscribe CHANNEL` and `send CHANNEL MESSAGE...` become the two
/// requests; everything after a `send`'s channel is the message, the words
/// rejoined with single spaces. An empty line or `help` is answered with
/// the command summary, a wrong number of words with the command's usage
/// line, and an unknown first word with an error naming it.
pub fn parse_input(command: &str) -> (r: Result<Request, String>)
    ensures
        ({
            let ws = words(command@);
            &&& (ws.len() == 0 || ws[0] == "help"@) ==> (r matches Err(m) && m@ == help_text())
            &&& (ws.len() > 0 && ws[0] == "subscribe"@) ==> (if ws.len() == 2 {
                r matches Ok(q) && q matches Request::Subscribe(c) && c@ == ws[1]
            } else {
                r matches Err(m) && m@ == "Usage: subscribe CHANNEL"@
            })
            &&& (ws.len() > 0 && ws[0] == "send"@) ==> (if ws.len() >= 3 {
                r matches Ok(q) && (q matches Request::Send { channel, message } && channel@
                    == ws[1] && message@ == join_spaces(ws.skip(2)))
            } else {
                r matches Err(m) && m@ == "Usage: send CHANNEL MESSAGE..."@
            })
            &&& (ws.len() > 0 && ws[0] != "help"@ && ws[0] != "subscribe"@ && ws[0] != "send"@)
                ==> (r matches Err(m) && m@ == "Unrecognized command: "@ + ws[0])
        }),
{
    let ws = split_command(command);
    proof {
        assert(forall|i: int|
            0 <= i < ws@.len() ==> #[trigger] ws.deep_view()[i] == ws@[i]@);
        reveal_strlit("help");
        reveal_strlit("subscribe");
        reveal_strlit("send");
        assert("help"@ != "subscribe"@ && "help"@ != "send"@ && "subscribe"@ != "send"@) by {
            assert("help"@.len() == 4 && "subscribe"@.len() == 9 && "send"@.len() == 4);
            assert("help"@[0] == 'h' && "send"@[0] == 's');
        }
    }
    if ws.len() == 0 {
        return Err(String::from_str("Commands:\nsubscribe CHANNEL\nsend CHANNEL MESSAGE..."));
    }
    let first = &ws[0];
    if *first == String::from_str("help") {
        Err(String::from_str("Commands:\nsubscribe CHANNEL\nsend CHANNEL MESSAGE..."))
    } else if *first == String::from_str("subscribe") {
        if ws.len() != 2 {
            Err(String::from_str("Usage: subscribe CHANNEL"))
        } else {
            Ok(Request::Subscribe(ws[1].clone()))
        }
    } else if *first == String::from_str("send") {
        if ws.len() < 3 {
            Err(String::from_str("Usage: send CHANNEL MESSAGE..."))
        } else {
            let channel = ws[1].clone();
            let message = join_words(&ws, 2);
            proof {
                assert(ws.deep_view().skip(2) =~~= words(command@).skip(2));
            }
            Ok(Request::Send { channel, message })
        }
    } else {
        let mut m = String::from_str("Unrecognized command: ");
        m.append(first.as_str());
        Err(m)
    }
}

} // verus!
