//! The persisted document: a pretty, human-diffable structured text
//! holding the deck mapping and the optional last-action record, and
//! never the provenance path. This module defines the exact format,
//! renders it, parses it, and proves that parsing inverts rendering.
//!
//! The format is a JSON document of a fixed shape:
//! `{ "pictures": { name: [url, ...], ... }, "last_sent": null | { "deck": d, "url": u } }`
//! with two-space indentation. Inside strings, the quote and backslash
//! characters and the newline, tab and carriage-return characters are
//! escaped; every other character stands for itself.

use vstd::prelude::*;

use crate::album::{decks_view_of, last_view_of, pcount, Deck, DeckView, Picture};
use crate::chars::{chars_of, str_eq, string_of};

verus! {

// ---------------------------------------------------------------------
// Rendering, at the specification level.
// ---------------------------------------------------------------------

/// How one character is written inside a quoted string.
pub open spec fn esc_char(c: char) -> Seq<char> {
    if c == '"' {
        seq!['\\', '"']
    } else if c == '\\' {
        seq!['\\', '\\']
    } else if c == '\n' {
        seq!['\\', 'n']
    } else if c == '\t' {
        seq!['\\', 't']
    } else if c == '\r' {
        seq!['\\', 'r']
    } else {
        seq![c]
    }
}

/// How a whole string body is written.
pub open spec fn esc(s: Seq<char>) -> Seq<char>
    decreases s.len(),
{
    if s.len() == 0 {
        Seq::empty()
    } else {
        esc_char(s[0]) + esc(s.drop_first())
    }
}

/// A quoted, escaped string.
pub open spec fn quot(s: Seq<char>) -> Seq<char> {
    seq!['"'] + esc(s) + seq!['"']
}

/// A line break followed by one level of indentation.
pub open spec fn nl1() -> Seq<char> {
    seq!['\n', ' ', ' ']
}

/// A line break followed by two levels of indentation.
pub open spec fn nl2() -> Seq<char> {
    seq!['\n', ' ', ' ', ' ', ' ']
}

/// A line break followed by three levels of indentation.
pub open spec fn nl3() -> Seq<char> {
    seq!['\n', ' ', ' ', ' ', ' ', ' ', ' ']
}

/// The entries of a non-empty url array, one per line.
pub open spec fn enc_url_items(urls: Seq<Seq<char>>) -> Seq<char>
    decreases urls.len(),
{
    if urls.len() <= 1 {
        nl3() + quot(urls[0])
    } else {
        nl3() + quot(urls[0]) + seq![','] + enc_url_items(urls.drop_first())
    }
}

/// A url array.
pub open spec fn enc_array(urls: Seq<Seq<char>>) -> Seq<char> {
    if urls.len() == 0 {
        seq!['[', ']']
    } else {
        seq!['['] + enc_url_items(urls) + nl2() + seq![']']
    }
}

/// The entries of a non-empty deck mapping, one deck per line.
pub open spec fn enc_deck_items(decks: Seq<DeckView>) -> Seq<char>
    decreases decks.len(),
{
    if decks.len() <= 1 {
        nl2() + quot(decks[0].name) + seq![':', ' '] + enc_array(decks[0].urls)
    } else {
        nl2() + quot(decks[0].name) + seq![':', ' '] + enc_array(decks[0].urls) + seq![',']
            + enc_deck_items(decks.drop_first())
    }
}

/// The deck mapping.
pub open spec fn enc_map(decks: Seq<DeckView>) -> Seq<char> {
    if decks.len() == 0 {
        seq!['{', '}']
    } else {
        seq!['{'] + enc_deck_items(decks) + nl1() + seq!['}']
    }
}

/// The word introducing the deck mapping.
pub open spec fn kw_pictures() -> Seq<char> {
    seq!['p', 'i', 'c', 't', 'u', 'r', 'e', 's']
}

/// The word introducing the last-action record.
pub open spec fn kw_last_sent() -> Seq<char> {
    seq!['l', 'a', 's', 't', '_', 's', 'e', 'n', 't']
}

/// The word naming the deck half of the last-action record.
pub open spec fn kw_deck() -> Seq<char> {
    seq!['d', 'e', 'c', 'k']
}

/// The word naming the url half of the last-action record.
pub open spec fn kw_url() -> Seq<char> {
    seq!['u', 'r', 'l']
}

/// The word standing for an absent last-action record.
pub open spec fn kw_null() -> Seq<char> {
    seq!['n', 'u', 'l', 'l']
}

/// The last-action record.
pub open spec fn enc_last(last: Option<(Seq<char>, Seq<char>)>) -> Seq<char> {
    match last {
        None => kw_null(),
        Some(p) => seq!['{'] + nl2() + quot(kw_deck()) + seq![':', ' '] + quot(p.0) + seq![',']
            + nl2() + quot(kw_url()) + seq![':', ' '] + quot(p.1) + nl1() + seq!['}'],
    }
}

/// The whole document.
pub open spec fn enc_doc(decks: Seq<DeckView>, last: Option<(Seq<char>, Seq<char>)>) -> Seq<
    char,
> {
    seq!['{'] + nl1() + quot(kw_pictures()) + seq![':', ' '] + enc_map(decks) + seq![','] + nl1()
        + quot(kw_last_sent()) + seq![':', ' '] + enc_last(last) + seq!['\n', '}']
}

// ---------------------------------------------------------------------
// Parsing, at the specification level. Each function consumes a prefix
// of its input and yields the parsed value and the remaining input.
// ---------------------------------------------------------------------

/// The characters that may stand between tokens.
pub open spec fn is_ws(c: char) -> bool {
    c == ' ' || c == '\n' || c == '\t' || c == '\r'
}

/// The input with its leading whitespace dropped.
pub open spec fn ws(s: Seq<char>) -> Seq<char>
    decreases s.len(),
{
    if s.len() > 0 && is_ws(s[0]) {
        ws(s.drop_first())
    } else {
        s
    }
}

/// The input after an expected literal word, when it is there.
pub open spec fn p_lit(s: Seq<char>, kw: Seq<char>) -> Option<Seq<char>> {
    if kw.len() <= s.len() && s.take(kw.len() as int) == kw {
        Some(s.skip(kw.len() as int))
    } else {
        None
    }
}

/// The character an escape code stands for.
pub open spec fn unesc_char(c: char) -> Option<char> {
    if c == '"' {
        Some('"')
    } else if c == '\\' {
        Some('\\')
    } else if c == '/' {
        Some('/')
    } else if c == 'n' {
        Some('\n')
    } else if c == 't' {
        Some('\t')
    } else if c == 'r' {
        Some('\r')
    } else if c == 'b' {
        Some('\u{8}')
    } else if c == 'f' {
        Some('\u{c}')
    } else {
        None
    }
}

/// A string body up to and over its closing quote.
pub open spec fn p_strbody(s: Seq<char>) -> Option<(Seq<char>, Seq<char>)>
    decreases s.len(),
{
    if s.len() == 0 {
        None
    } else if s[0] == '"' {
        Some((Seq::empty(), s.drop_first()))
    } else if s[0] == '\\' {
        if s.len() < 2 {
            None
        } else {
            match unesc_char(s[1]) {
                None => None,
                Some(c) => match p_strbody(s.skip(2)) {
                    None => None,
                    Some((t, rest)) => Some((seq![c] + t, rest)),
                },
            }
        }
    } else {
        match p_strbody(s.drop_first()) {
            None => None,
            Some((t, rest)) => Some((seq![s[0]] + t, rest)),
        }
    }
}

/// A quoted string, leading whitespace allowed.
pub open spec fn p_string(s: Seq<char>) -> Option<(Seq<char>, Seq<char>)> {
    let s1 = ws(s);
    if s1.len() > 0 && s1[0] == '"' {
        p_strbody(s1.drop_first())
    } else {
        None
    }
}

/// The entries of a url array, after its opening bracket, up to and
/// over its closing bracket.
pub open spec fn p_array_items(s: Seq<char>) -> Option<(Seq<Seq<char>>, Seq<char>)>
    decreases s.len(),
{
    match p_string(s) {
        None => None,
        Some((v, rest)) => {
            let r1 = ws(rest);
            if r1.len() == 0 {
                None
            } else if r1[0] == ',' {
                if r1.drop_first().len() < s.len() {
                    match p_array_items(r1.drop_first()) {
                        None => None,
                        Some((items, r2)) => Some((seq![v] + items, r2)),
                    }
                } else {
                    None
                }
            } else if r1[0] == ']' {
                Some((seq![v], r1.drop_first()))
            } else {
                None
            }
        },
    }
}

/// A url array, leading whitespace allowed.
pub open spec fn p_array(s: Seq<char>) -> Option<(Seq<Seq<char>>, Seq<char>)> {
    let s1 = ws(s);
    if s1.len() > 0 && s1[0] == '[' {
        let s2 = ws(s1.drop_first());
        if s2.len() > 0 && s2[0] == ']' {
            Some((Seq::empty(), s2.drop_first()))
        } else {
            p_array_items(s1.drop_first())
        }
    } else {
        None
    }
}

/// The entries of a deck mapping, after its opening brace, up to and
/// over its closing brace.
pub open spec fn p_map_items(s: Seq<char>) -> Option<(Seq<DeckView>, Seq<char>)>
    decreases s.len(),
{
    match p_string(s) {
        None => None,
        Some((name, r)) => {
            let r1 = ws(r);
            if r1.len() == 0 || r1[0] != ':' {
                None
            } else {
                match p_array(r1.drop_first()) {
                    None => None,
                    Some((urls, r2)) => {
                        let r3 = ws(r2);
                        if r3.len() == 0 {
                            None
                        } else if r3[0] == ',' {
                            if r3.drop_first().len() < s.len() {
                                match p_map_items(r3.drop_first()) {
                                    None => None,
                                    Some((decks, r4)) => Some(
                                        (seq![DeckView { name, urls }] + decks, r4),
                                    ),
                                }
                            } else {
                                None
                            }
                        } else if r3[0] == '}' {
                            Some((seq![DeckView { name, urls }], r3.drop_first()))
                        } else {
                            None
                        }
                    },
                }
            }
        },
    }
}

/// A deck mapping, leading whitespace allowed.
pub open spec fn p_map(s: Seq<char>) -> Option<(Seq<DeckView>, Seq<char>)> {
    let s1 = ws(s);
    if s1.len() > 0 && s1[0] == '{' {
        let s2 = ws(s1.drop_first());
        if s2.len() > 0 && s2[0] == '}' {
            Some((Seq::empty(), s2.drop_first()))
        } else {
            p_map_items(s1.drop_first())
        }
    } else {
        None
    }
}

/// The last-action record: the literal word for "none", or a record of
/// exactly a deck and a url.
pub open spec fn p_last(s: Seq<char>) -> Option<
    (Option<(Seq<char>, Seq<char>)>, Seq<char>),
> {
    let s1 = ws(s);
    match p_lit(s1, kw_null()) {
        Some(rest) => Some((None, rest)),
        None => {
            if s1.len() > 0 && s1[0] == '{' {
                match p_string(s1.drop_first()) {
                    None => None,
                    Some((k1, r1)) => {
                        if k1 != kw_deck() {
                            None
                        } else {
                            let r2 = ws(r1);
                            if r2.len() == 0 || r2[0] != ':' {
                                None
                            } else {
                                match p_string(r2.drop_first()) {
                                    None => None,
                                    Some((deck, r3)) => {
                                        let r4 = ws(r3);
                                        if r4.len() == 0 || r4[0] != ',' {
                                            None
                                        } else {
                                            match p_string(r4.drop_first()) {
                                                None => None,
                                                Some((k2, r5)) => {
                                                    if k2 != kw_url() {
                                                        None
                                                    } else {
                                                        let r6 = ws(r5);
                                                        if r6.len() == 0 || r6[0] != ':' {
                                                            None
                                                        } else {
                                                            match p_string(r6.drop_first()) {
                                                                None => None,
                                                                Some((url, r7)) => {
                                                                    let r8 = ws(r7);
                                                                    if r8.len() > 0 && r8[0]
                                                                        == '}' {
                                                                        Some(
                                                                            (
                                                                                Some((deck, url)),
                                                                                r8.drop_first(),
                                                                            ),
                                                                        )
                                                                    } else {
                                                                        None
                                                                    }
                                                                },
                                                            }
                                                        }
                                                    }
                                                },
                                            }
                                        }
                                    },
                                }
                            }
                        }
                    },
                }
            } else {
                None
            }
        },
    }
}

/// The whole document, with nothing but whitespace after it.
pub open spec fn p_doc(s: Seq<char>) -> Option<
    (Seq<DeckView>, Option<(Seq<char>, Seq<char>)>),
> {
    let s1 = ws(s);
    if s1.len() > 0 && s1[0] == '{' {
        match p_string(s1.drop_first()) {
            None => None,
            Some((k1, r1)) => {
                if k1 != kw_pictures() {
                    None
                } else {
                    let r2 = ws(r1);
                    if r2.len() == 0 || r2[0] != ':' {
                        None
                    } else {
                        match p_map(r2.drop_first()) {
                            None => None,
                            Some((decks, r3)) => {
                                let r4 = ws(r3);
                                if r4.len() == 0 || r4[0] != ',' {
                                    None
                                } else {
                                    match p_string(r4.drop_first()) {
                                        None => None,
                                        Some((k2, r5)) => {
                                            if k2 != kw_last_sent() {
                                                None
                                            } else {
                                                let r6 = ws(r5);
                                                if r6.len() == 0 || r6[0] != ':' {
                                                    None
                                                } else {
                                                    match p_last(r6.drop_first()) {
                                                        None => None,
                                                        Some((last, r7)) => {
                                                            let r8 = ws(r7);
                                                            if r8.len() > 0 && r8[0] == '}' && ws(
                                                                r8.drop_first(),
                                                            ).len() == 0 {
                                                                Some((decks, last))
                                                            } else {
                                                                None
                                                            }
                                                        },
                                                    }
                                                }
                                            }
                                        },
                                    }
                                }
                            },
                        }
                    }
                }
            },
        }
    } else {
        None
    }
}

// ---------------------------------------------------------------------
// Parsing inverts rendering.
// ---------------------------------------------------------------------

/// Leading whitespace is consumed however it got there.
proof fn lemma_ws_skip(p: Seq<char>, t: Seq<char>)
    requires
        forall|i: int| 0 <= i < p.len() ==> is_ws(p[i]),
    ensures
        ws(p + t) == ws(t),
    decreases p.len(),
{
    if p.len() == 0 {
        assert(p + t =~= t);
    } else {
        assert((p + t)[0] == p[0]);
        assert((p + t).drop_first() =~= p.drop_first() + t);
        lemma_ws_skip(p.drop_first(), t);
    }
}

/// The indentation runs the renderer writes are whitespace.
proof fn lemma_nl_ws()
    ensures
        forall|i: int| 0 <= i < nl1().len() ==> is_ws(#[trigger] nl1()[i]),
        forall|i: int| 0 <= i < nl2().len() ==> is_ws(#[trigger] nl2()[i]),
        forall|i: int| 0 <= i < nl3().len() ==> is_ws(#[trigger] nl3()[i]),
{
    assert forall|i: int| 0 <= i < nl1().len() implies is_ws(#[trigger] nl1()[i]) by {
        if i == 0 {
            assert(nl1()[0] == '\n');
        } else {
            assert(nl1()[i] == ' ');
        }
    }
    assert forall|i: int| 0 <= i < nl2().len() implies is_ws(#[trigger] nl2()[i]) by {
        if i == 0 {
            assert(nl2()[0] == '\n');
        } else {
            assert(nl2()[i] == ' ');
        }
    }
    assert forall|i: int| 0 <= i < nl3().len() implies is_ws(#[trigger] nl3()[i]) by {
        if i == 0 {
            assert(nl3()[0] == '\n');
        } else {
            assert(nl3()[i] == ' ');
        }
    }
}

/// A rendered string body parses back to the string it renders.
proof fn lemma_rt_strbody(x: Seq<char>, rest: Seq<char>)
    ensures
        p_strbody(esc(x) + seq!['"'] + rest) == Some((x, rest)),
    decreases x.len(),
{
    let s = esc(x) + seq!['"'] + rest;
    if x.len() == 0 {
        assert(esc(x) =~= Seq::<char>::empty());
        assert(s =~= seq!['"'] + rest);
        assert(s[0] == '"');
        assert(s.drop_first() =~= rest);
        assert(x =~= Seq::<char>::empty());
    } else {
        let c = x[0];
        let s2 = esc(x.drop_first()) + seq!['"'] + rest;
        assert(esc(x) == esc_char(c) + esc(x.drop_first()));
        lemma_rt_strbody(x.drop_first(), rest);
        assert(seq![c] + x.drop_first() =~= x);
        if c == '"' {
            assert(s =~= seq!['\\', '"'] + s2);
            assert(s.skip(2) =~= s2);
        } else if c == '\\' {
            assert(s =~= seq!['\\', '\\'] + s2);
            assert(s.skip(2) =~= s2);
        } else if c == '\n' {
            assert(s =~= seq!['\\', 'n'] + s2);
            assert(s.skip(2) =~= s2);
        } else if c == '\t' {
            assert(s =~= seq!['\\', 't'] + s2);
            assert(s.skip(2) =~= s2);
        } else if c == '\r' {
            assert(s =~= seq!['\\', 'r'] + s2);
            assert(s.skip(2) =~= s2);
        } else {
            assert(s =~= seq![c] + s2);
            assert(s.drop_first() =~= s2);
        }
    }
}

/// A rendered quoted string parses back to itself.
proof fn lemma_rt_string(x: Seq<char>, rest: Seq<char>)
    ensures
        p_string(quot(x) + rest) == Some((x, rest)),
{
    let s = quot(x) + rest;
    assert(s =~= seq!['"'] + (esc(x) + seq!['"'] + rest));
    assert(s[0] == '"');
    assert(!is_ws(s[0]));
    assert(ws(s) == s);
    assert(s.drop_first() =~= esc(x) + seq!['"'] + rest);
    lemma_rt_strbody(x, rest);
}

/// A quoted string behind an indentation run parses the same way.
proof fn lemma_rt_string_indented(p: Seq<char>, x: Seq<char>, rest: Seq<char>)
    requires
        forall|i: int| 0 <= i < p.len() ==> is_ws(p[i]),
    ensures
        p_string(p + (quot(x) + rest)) == Some((x, rest)),
{
    lemma_ws_skip(p, quot(x) + rest);
    lemma_rt_string(x, rest);
    let t = quot(x) + rest;
    assert(t[0] == '"');
    assert(!is_ws(t[0]));
    assert(ws(t) == t);
}

/// Rendered url entries parse back to the urls they render.
proof fn lemma_rt_array_items(urls: Seq<Seq<char>>, rest: Seq<char>)
    requires
        urls.len() >= 1,
    ensures
        p_array_items(enc_url_items(urls) + (nl2() + seq![']'] + rest)) == Some((urls, rest)),
    decreases urls.len(),
{
    lemma_nl_ws();
    let tail = nl2() + seq![']'] + rest;
    let s = enc_url_items(urls) + tail;
    if urls.len() == 1 {
        assert(s =~= nl3() + (quot(urls[0]) + tail));
        lemma_rt_string_indented(nl3(), urls[0], tail);
        assert(p_string(s) == Some((urls[0], tail)));
        assert(tail =~= nl2() + (seq![']'] + rest));
        lemma_ws_skip(nl2(), seq![']'] + rest);
        let r1 = ws(tail);
        assert((seq![']'] + rest)[0] == ']');
        assert(r1 == seq![']'] + rest);
        assert(r1[0] == ']');
        assert(r1.drop_first() =~= rest);
        assert(seq![urls[0]] =~= urls);
    } else {
        let r = seq![','] + (enc_url_items(urls.drop_first()) + tail);
        assert(s =~= nl3() + (quot(urls[0]) + r));
        lemma_rt_string_indented(nl3(), urls[0], r);
        assert(p_string(s) == Some((urls[0], r)));
        assert(r[0] == ',');
        assert(!is_ws(r[0]));
        let r1 = ws(r);
        assert(r1 == r);
        assert(r1.drop_first() =~= enc_url_items(urls.drop_first()) + tail);
        assert(r1.drop_first().len() < s.len()) by {
            assert(s.len() == nl3().len() + quot(urls[0]).len() + r.len());
        }
        lemma_rt_array_items(urls.drop_first(), rest);
        assert(seq![urls[0]] + urls.drop_first() =~= urls);
    }
}

/// A rendered url array, behind any whitespace, parses back to the
/// urls it renders.
proof fn lemma_rt_array(p: Seq<char>, urls: Seq<Seq<char>>, rest: Seq<char>)
    requires
        forall|i: int| 0 <= i < p.len() ==> is_ws(p[i]),
    ensures
        p_array(p + (enc_array(urls) + rest)) == Some((urls, rest)),
{
    lemma_nl_ws();
    let t = enc_array(urls) + rest;
    lemma_ws_skip(p, t);
    if urls.len() == 0 {
        assert(t =~= seq!['['] + (seq![']'] + rest));
        assert(t[0] == '[');
        assert(!is_ws(t[0]));
        assert(ws(t) == t);
        assert(t.drop_first() =~= seq![']'] + rest);
        assert(t.drop_first()[0] == ']');
        assert(!is_ws(t.drop_first()[0]));
        assert(ws(t.drop_first()) == t.drop_first());
        assert(t.drop_first().drop_first() =~= rest);
        assert(Seq::<Seq<char>>::empty() =~= urls);
    } else {
        let inner = enc_url_items(urls) + (nl2() + seq![']'] + rest);
        assert(t =~= seq!['['] + inner);
        assert(t[0] == '[');
        assert(!is_ws(t[0]));
        assert(ws(t) == t);
        assert(t.drop_first() =~= inner);
        // After the bracket the parser peeks for an immediate end; the
        // first entry's opening quote is what it finds instead.
        let head = quot(urls[0]) + (if urls.len() == 1 {
            nl2() + seq![']'] + rest
        } else {
            seq![','] + (enc_url_items(urls.drop_first()) + (nl2() + seq![']'] + rest))
        });
        assert(inner =~= nl3() + head);
        lemma_ws_skip(nl3(), head);
        assert(head[0] == '"');
        assert(!is_ws(head[0]));
        assert(ws(head) == head);
        assert(ws(inner)[0] == '"');
        lemma_rt_array_items(urls, rest);
    }
}

/// Rendered deck entries parse back to the decks they render.
proof fn lemma_rt_deck_items(decks: Seq<DeckView>, rest: Seq<char>)
    requires
        decks.len() >= 1,
    ensures
        p_map_items(enc_deck_items(decks) + (nl1() + seq!['}'] + rest)) == Some((decks, rest)),
    decreases decks.len(),
{
    lemma_nl_ws();
    let tail = nl1() + seq!['}'] + rest;
    let s = enc_deck_items(decks) + tail;
    let d0 = decks[0];
    let after = if decks.len() == 1 {
        tail
    } else {
        seq![','] + (enc_deck_items(decks.drop_first()) + tail)
    };
    let r = seq![':', ' '] + (enc_array(d0.urls) + after);
    assert(s =~= nl2() + (quot(d0.name) + r)) by {
        if decks.len() == 1 {
            assert(enc_deck_items(decks) == nl2() + quot(d0.name) + seq![':', ' '] + enc_array(
                d0.urls,
            ));
        }
    }
    lemma_rt_string_indented(nl2(), d0.name, r);
    assert(p_string(s) == Some((d0.name, r)));
    assert(r[0] == ':');
    assert(!is_ws(r[0]));
    let r1 = ws(r);
    assert(r1 == r);
    assert(r1.drop_first() =~= seq![' '] + (enc_array(d0.urls) + after));
    assert(is_ws(' '));
    assert(forall|i: int| 0 <= i < seq![' '].len() ==> is_ws(seq![' '][i]));
    lemma_rt_array(seq![' '], d0.urls, after);
    assert(p_array(r1.drop_first()) == Some((d0.urls, after)));
    assert(DeckView { name: d0.name, urls: d0.urls } == d0);
    if decks.len() == 1 {
        assert(after =~= nl1() + (seq!['}'] + rest));
        lemma_ws_skip(nl1(), seq!['}'] + rest);
        let r3 = ws(after);
        assert((seq!['}'] + rest)[0] == '}');
        assert(r3 == seq!['}'] + rest);
        assert(r3[0] == '}');
        assert(r3.drop_first() =~= rest);
        assert(seq![d0] =~= decks);
    } else {
        let r3 = ws(after);
        assert(after[0] == ',');
        assert(!is_ws(after[0]));
        assert(r3 == after);
        assert(r3.drop_first() =~= enc_deck_items(decks.drop_first()) + tail);
        assert(r3.drop_first().len() < s.len()) by {
            assert(s.len() == nl2().len() + quot(d0.name).len() + r.len());
            assert(r.len() == 2 + enc_array(d0.urls).len() + after.len());
            assert(enc_array(d0.urls).len() >= 2);
        }
        lemma_rt_deck_items(decks.drop_first(), rest);
        assert(seq![d0] + decks.drop_first() =~= decks);
    }
}

/// A rendered deck mapping, behind any whitespace, parses back to the
/// decks it renders.
proof fn lemma_rt_map(p: Seq<char>, decks: Seq<DeckView>, rest: Seq<char>)
    requires
        forall|i: int| 0 <= i < p.len() ==> is_ws(p[i]),
    ensures
        p_map(p + (enc_map(decks) + rest)) == Some((decks, rest)),
{
    lemma_nl_ws();
    let t = enc_map(decks) + rest;
    lemma_ws_skip(p, t);
    if decks.len() == 0 {
        assert(t =~= seq!['{'] + (seq!['}'] + rest));
        assert(t[0] == '{');
        assert(!is_ws(t[0]));
        assert(ws(t) == t);
        assert(t.drop_first() =~= seq!['}'] + rest);
        assert(t.drop_first()[0] == '}');
        assert(!is_ws(t.drop_first()[0]));
        assert(ws(t.drop_first()) == t.drop_first());
        assert(t.drop_first().drop_first() =~= rest);
        assert(Seq::<DeckView>::empty() =~= decks);
    } else {
        let inner = enc_deck_items(decks) + (nl1() + seq!['}'] + rest);
        assert(t =~= seq!['{'] + inner);
        assert(t[0] == '{');
        assert(!is_ws(t[0]));
        assert(ws(t) == t);
        assert(t.drop_first() =~= inner);
        let head = quot(decks[0].name) + (seq![':', ' '] + (enc_array(decks[0].urls) + (
        if decks.len() == 1 {
            nl1() + seq!['}'] + rest
        } else {
            seq![','] + (enc_deck_items(decks.drop_first()) + (nl1() + seq!['}'] + rest))
        })));
        assert(inner =~= nl2() + head);
        lemma_ws_skip(nl2(), head);
        assert(head[0] == '"');
        assert(!is_ws(head[0]));
        assert(ws(head) == head);
        assert(ws(inner)[0] == '"');
        lemma_rt_deck_items(decks, rest);
    }
}

/// A rendered last-action record, behind any whitespace, parses back
/// to the record it renders.
proof fn lemma_rt_last(p: Seq<char>, last: Option<(Seq<char>, Seq<char>)>, rest: Seq<char>)
    requires
        forall|i: int| 0 <= i < p.len() ==> is_ws(p[i]),
    ensures
        p_last(p + (enc_last(last) + rest)) == Some((last, rest)),
{
    lemma_nl_ws();
    let t = enc_last(last) + rest;
    lemma_ws_skip(p, t);
    match last {
        None => {
            assert(t =~= kw_null() + rest);
            assert(t[0] == 'n');
            assert(!is_ws(t[0]));
            assert(ws(t) == t);
            assert(t.take(4) =~= kw_null());
            assert(t.skip(4) =~= rest);
        },
        Some(pair) => {
            let d = pair.0;
            let u = pair.1;
            let r7rest = nl1() + seq!['}'] + rest;
            let r5rest = seq![':', ' '] + (quot(u) + r7rest);
            let r3rest = seq![','] + (nl2() + (quot(kw_url()) + r5rest));
            let r1rest = seq![':', ' '] + (quot(d) + r3rest);
            assert(t =~= seq!['{'] + (nl2() + (quot(kw_deck()) + r1rest)));
            assert(t[0] == '{');
            assert(!is_ws(t[0]));
            assert(ws(t) == t);
            // The "none" literal does not begin with a brace.
            assert(t.len() >= 4);
            assert(t.take(4)[0] == '{');
            assert(kw_null()[0] == 'n');
            assert(t.take(4) != kw_null());
            assert(p_lit(t, kw_null()) is None);
            assert(t.drop_first() =~= nl2() + ((quot(kw_deck()) + r1rest)));
            lemma_rt_string_indented(nl2(), kw_deck(), r1rest);
            assert(p_string(t.drop_first()) == Some((kw_deck(), r1rest)));
            assert(r1rest[0] == ':');
            assert(!is_ws(r1rest[0]));
            let r2 = ws(r1rest);
            assert(r2 == r1rest);
            assert(r2.drop_first() =~= seq![' '] + (quot(d) + r3rest));
            assert(forall|i: int| 0 <= i < seq![' '].len() ==> is_ws(seq![' '][i]));
            lemma_rt_string_indented(seq![' '], d, r3rest);
            assert(p_string(r2.drop_first()) == Some((d, r3rest)));
            assert(r3rest[0] == ',');
            assert(!is_ws(r3rest[0]));
            let r4 = ws(r3rest);
            assert(r4 == r3rest);
            assert(r4.drop_first() =~= nl2() + (quot(kw_url()) + r5rest));
            lemma_rt_string_indented(nl2(), kw_url(), r5rest);
            assert(p_string(r4.drop_first()) == Some((kw_url(), r5rest)));
            assert(r5rest[0] == ':');
            assert(!is_ws(r5rest[0]));
            let r6 = ws(r5rest);
            assert(r6 == r5rest);
            assert(r6.drop_first() =~= seq![' '] + (quot(u) + r7rest));
            lemma_rt_string_indented(seq![' '], u, r7rest);
            assert(p_string(r6.drop_first()) == Some((u, r7rest)));
            assert(r7rest =~= nl1() + (seq!['}'] + rest));
            lemma_ws_skip(nl1(), seq!['}'] + rest);
            let r8 = ws(r7rest);
            assert((seq!['}'] + rest)[0] == '}');
            assert(r8 == seq!['}'] + rest);
            assert(r8[0] == '}');
            assert(r8.drop_first() =~= rest);
        },
    }
}

/// A rendered document parses back to exactly the decks and the
/// last-action record it renders.
#[verifier::rlimit(100)]
proof fn lemma_rt_doc(decks: Seq<DeckView>, last: Option<(Seq<char>, Seq<char>)>)
    ensures
        p_doc(enc_doc(decks, last)) == Some((decks, last)),
{
    lemma_nl_ws();
    let s = enc_doc(decks, last);
    let rd = seq!['\n', '}'];
    let rc = seq![':', ' '] + (enc_last(last) + rd);
    let rb = seq![','] + (nl1() + (quot(kw_last_sent()) + rc));
    let ra = seq![':', ' '] + (enc_map(decks) + rb);
    assert(s =~= seq!['{'] + (nl1() + (quot(kw_pictures()) + ra)));
    assert(s[0] == '{');
    assert(!is_ws(s[0]));
    assert(ws(s) == s);
    assert(s.drop_first() =~= nl1() + (quot(kw_pictures()) + ra));
    lemma_rt_string_indented(nl1(), kw_pictures(), ra);
    assert(p_string(s.drop_first()) == Some((kw_pictures(), ra)));
    assert(ra[0] == ':');
    assert(!is_ws(ra[0]));
    let r2 = ws(ra);
    assert(r2 == ra);
    assert(r2.drop_first() =~= seq![' '] + (enc_map(decks) + rb));
    assert(forall|i: int| 0 <= i < seq![' '].len() ==> is_ws(seq![' '][i]));
    lemma_rt_map(seq![' '], decks, rb);
    assert(p_map(r2.drop_first()) == Some((decks, rb)));
    assert(rb[0] == ',');
    assert(!is_ws(rb[0]));
    let r4 = ws(rb);
    assert(r4 == rb);
    assert(r4.drop_first() =~= nl1() + (quot(kw_last_sent()) + rc));
    lemma_rt_string_indented(nl1(), kw_last_sent(), rc);
    assert(p_string(r4.drop_first()) == Some((kw_last_sent(), rc)));
    assert(rc[0] == ':');
    assert(!is_ws(rc[0]));
    let r6 = ws(rc);
    assert(r6 == rc);
    assert(r6.drop_first() =~= seq![' '] + (enc_last(last) + rd));
    lemma_rt_last(seq![' '], last, rd);
    assert(p_last(r6.drop_first()) == Some((last, rd)));
    assert(rd =~= seq!['\n'] + seq!['}']);
    assert(is_ws('\n'));
    assert(forall|i: int| 0 <= i < seq!['\n'].len() ==> is_ws(seq!['\n'][i]));
    lemma_ws_skip(seq!['\n'], seq!['}']);
    let r8 = ws(rd);
    assert(seq!['}'][0] == '}');
    assert(r8 == seq!['}']);
    assert(r8[0] == '}');
    assert(r8.drop_first() =~= Seq::<char>::empty());
    assert(ws(r8.drop_first()).len() == 0);
}

/// Loading a saved album reproduces exactly the decks and last-action
/// record that were saved: parsing inverts rendering on every
/// well-formed store.
pub proof fn lemma_parse_inverts_render(
    decks: Seq<DeckView>,
    last: Option<(Seq<char>, Seq<char>)>,
)
    requires
        crate::album::decks_wf(decks),
        pcount(decks) <= usize::MAX,
    ensures
        parse_document(enc_doc(decks, last)) == Some((decks, last)),
{
    lemma_rt_doc(decks, last);
}

/// Saving and loading reproduce the same store: on every well-formed
/// album, parsing the rendered document gives back exactly the decks
/// and the last-action record.
pub proof fn lemma_save_load_round_trip(a: crate::album::AlbumView)
    requires
        a.wf(),
    ensures
        parse_document(enc_doc(a.decks, a.last)) == Some((a.decks, a.last)),
{
    lemma_parse_inverts_render(a.decks, a.last);
}

/// What a parsed deck list must satisfy to be accepted: the store's
/// own invariant, including that the total count is countable on this
/// machine.
pub open spec fn parse_valid(decks: Seq<DeckView>) -> bool {
    &&& crate::album::decks_wf(decks)
    &&& pcount(decks) <= usize::MAX
}

/// The meaning of a persisted document: the decks and last-action it
/// describes, or nothing when it is malformed or breaks the store's
/// invariant.
pub open spec fn parse_document(s: Seq<char>) -> Option<
    (Seq<DeckView>, Option<(Seq<char>, Seq<char>)>),
> {
    match p_doc(s) {
        None => None,
        Some((decks, last)) => if parse_valid(decks) {
            Some((decks, last))
        } else {
            None
        },
    }
}

// ---------------------------------------------------------------------
// Rendering, executed.
// ---------------------------------------------------------------------

/// Escaping distributes over extension at the end.
proof fn lemma_esc_snoc(t: Seq<char>, c: char)
    ensures
        esc(t.push(c)) == esc(t) + esc_char(c),
    decreases t.len(),
{
    if t.len() == 0 {
        assert(t.push(c)[0] == c);
        assert(t.push(c).drop_first() =~= Seq::<char>::empty());
        assert(esc(Seq::<char>::empty()) =~= Seq::<char>::empty());
        assert(esc(t) =~= Seq::<char>::empty());
        assert(esc(t.push(c)) =~= esc(t) + esc_char(c));
    } else {
        assert(t.push(c)[0] == t[0]);
        assert(t.push(c).drop_first() =~= t.drop_first().push(c));
        lemma_esc_snoc(t.drop_first(), c);
        assert(esc(t.push(c)) =~= esc(t) + esc_char(c));
    }
}

/// Writes one string body, escaped.
fn e_esc(out: &mut Vec<char>, s: &str)
    ensures
        final(out)@ == old(out)@ + esc(s@),
{
    let cs = chars_of(s);
    let n = cs.len();
    let mut k: usize = 0;
    proof {
        assert(s@.take(0) =~= Seq::<char>::empty());
        assert(out@ =~= out@ + esc(s@.take(0)));
    }
    while k < n
        invariant
            cs@ == s@,
            n == s@.len(),
            k <= n,
            out@ == old(out)@ + esc(s@.take(k as int)),
        decreases n - k,
    {
        let c = cs[k];
        if c == '"' {
            out.push('\\');
            out.push('"');
        } else if c == '\\' {
            out.push('\\');
            out.push('\\');
        } else if c == '\n' {
            out.push('\\');
            out.push('n');
        } else if c == '\t' {
            out.push('\\');
            out.push('t');
        } else if c == '\r' {
            out.push('\\');
            out.push('r');
        } else {
            out.push(c);
        }
        proof {
            lemma_esc_snoc(s@.take(k as int), c);
            assert(s@.take(k as int + 1) =~= s@.take(k as int).push(c));
            assert(out@ =~= old(out)@ + esc(s@.take(k as int + 1)));
        }
        k += 1;
    }
    proof {
        assert(s@.take(n as int) =~= s@);
    }
}

/// Writes one quoted, escaped string.
fn e_quot(out: &mut Vec<char>, s: &str)
    ensures
        final(out)@ == old(out)@ + quot(s@),
{
    out.push('"');
    e_esc(out, s);
    out.push('"');
    proof {
        assert(out@ =~= old(out)@ + quot(s@));
    }
}

/// Writes a line break with one level of indentation.
fn e_nl1(out: &mut Vec<char>)
    ensures
        final(out)@ == old(out)@ + nl1(),
{
    out.push('\n');
    out.push(' ');
    out.push(' ');
    proof {
        assert(out@ =~= old(out)@ + nl1());
    }
}

/// Writes a line break with two levels of indentation.
fn e_nl2(out: &mut Vec<char>)
    ensures
        final(out)@ == old(out)@ + nl2(),
{
    out.push('\n');
    out.push(' ');
    out.push(' ');
    out.push(' ');
    out.push(' ');
    proof {
        assert(out@ =~= old(out)@ + nl2());
    }
}

/// Writes a line break with three levels of indentation.
fn e_nl3(out: &mut Vec<char>)
    ensures
        final(out)@ == old(out)@ + nl3(),
{
    out.push('\n');
    out.push(' ');
    out.push(' ');
    out.push(' ');
    out.push(' ');
    out.push(' ');
    out.push(' ');
    proof {
        assert(out@ =~= old(out)@ + nl3());
    }
}

/// Writes the url entries from position `k` on.
fn e_url_items(out: &mut Vec<char>, urls: &Vec<String>, k: usize)
    requires
        k < urls@.len(),
    ensures
        final(out)@ == old(out)@ + enc_url_items(urls.deep_view().skip(k as int)),
    decreases urls@.len() - k,
{
    let ghost sv = urls.deep_view().skip(k as int);
    proof {
        assert(sv[0] == urls.deep_view()[k as int]);
    }
    let n = urls.len();
    e_nl3(out);
    e_quot(out, urls[k].as_str());
    if k + 1 < n {
        out.push(',');
        e_url_items(out, urls, k + 1);
        proof {
            assert(sv.drop_first() =~= urls.deep_view().skip(k as int + 1));
            assert(sv.len() > 1);
            assert(out@ =~= old(out)@ + enc_url_items(sv));
        }
    } else {
        proof {
            assert(sv.len() == 1);
            assert(out@ =~= old(out)@ + enc_url_items(sv));
        }
    }
}

/// Writes one url array.
fn e_array(out: &mut Vec<char>, urls: &Vec<String>)
    ensures
        final(out)@ == old(out)@ + enc_array(urls.deep_view()),
{
    if urls.len() == 0 {
        out.push('[');
        out.push(']');
        proof {
            assert(urls.deep_view().len() == 0);
            assert(out@ =~= old(out)@ + enc_array(urls.deep_view()));
        }
    } else {
        out.push('[');
        e_url_items(out, urls, 0);
        e_nl2(out);
        out.push(']');
        proof {
            assert(urls.deep_view().skip(0) =~= urls.deep_view());
            assert(out@ =~= old(out)@ + enc_array(urls.deep_view()));
        }
    }
}

/// Writes the deck entries from position `k` on.
fn e_deck_items(out: &mut Vec<char>, decks: &Vec<Deck>, k: usize)
    requires
        k < decks@.len(),
    ensures
        final(out)@ == old(out)@ + enc_deck_items(decks_view_of(decks@).skip(k as int)),
    decreases decks@.len() - k,
{
    let ghost sv = decks_view_of(decks@).skip(k as int);
    proof {
        assert(sv[0] == decks_view_of(decks@)[k as int]);
        assert(sv[0].name == decks@[k as int].name@);
        assert(sv[0].urls =~= decks[k as int].urls.deep_view());
    }
    let n = decks.len();
    e_nl2(out);
    e_quot(out, decks[k].name.as_str());
    out.push(':');
    out.push(' ');
    e_array(out, &decks[k].urls);
    if k + 1 < n {
        out.push(',');
        e_deck_items(out, decks, k + 1);
        proof {
            assert(sv.drop_first() =~= decks_view_of(decks@).skip(k as int + 1));
            assert(sv.len() > 1);
            assert(out@ =~= old(out)@ + enc_deck_items(sv));
        }
    } else {
        proof {
            assert(sv.len() == 1);
            assert(out@ =~= old(out)@ + enc_deck_items(sv));
        }
    }
}

/// Writes the deck mapping.
fn e_map(out: &mut Vec<char>, decks: &Vec<Deck>)
    ensures
        final(out)@ == old(out)@ + enc_map(decks_view_of(decks@)),
{
    if decks.len() == 0 {
        out.push('{');
        out.push('}');
        proof {
            assert(decks_view_of(decks@).len() == 0);
            assert(out@ =~= old(out)@ + enc_map(decks_view_of(decks@)));
        }
    } else {
        out.push('{');
        e_deck_items(out, decks, 0);
        e_nl1(out);
        out.push('}');
        proof {
            assert(decks_view_of(decks@).skip(0) =~= decks_view_of(decks@));
            assert(out@ =~= old(out)@ + enc_map(decks_view_of(decks@)));
        }
    }
}

/// Writes the last-action record.
fn e_last(out: &mut Vec<char>, last: &Option<Picture>)
    ensures
        final(out)@ == old(out)@ + enc_last(last_view_of(*last)),
{
    match last {
        None => {
            out.push('n');
            out.push('u');
            out.push('l');
            out.push('l');
            proof {
                assert(out@ =~= old(out)@ + kw_null());
            }
        },
        Some(p) => {
            out.push('{');
            e_nl2(out);
            e_quot(out, "deck");
            out.push(':');
            out.push(' ');
            e_quot(out, p.deck.as_str());
            out.push(',');
            e_nl2(out);
            e_quot(out, "url");
            out.push(':');
            out.push(' ');
            e_quot(out, p.url.as_str());
            e_nl1(out);
            out.push('}');
            proof {
                reveal_strlit("deck");
                reveal_strlit("url");
                assert("deck"@ =~= kw_deck());
                assert("url"@ =~= kw_url());
                assert(out@ =~= old(out)@ + enc_last(last_view_of(*last)));
            }
        },
    }
}

// ---------------------------------------------------------------------
// Parsing, executed.
// ---------------------------------------------------------------------

/// Decides what an escape code stands for.
fn x_unescape(c: char) -> (r: Option<char>)
    ensures
        r == unesc_char(c),
{
    if c == '"' {
        Some('"')
    } else if c == '\\' {
        Some('\\')
    } else if c == '/' {
        Some('/')
    } else if c == 'n' {
        Some('\n')
    } else if c == 't' {
        Some('\t')
    } else if c == 'r' {
        Some('\r')
    } else if c == 'b' {
        Some('\u{8}')
    } else if c == 'f' {
        Some('\u{c}')
    } else {
        None
    }
}

/// Skips whitespace from position `i` on.
fn x_ws(v: &Vec<char>, i: usize) -> (j: usize)
    requires
        i <= v@.len(),
    ensures
        i <= j <= v@.len(),
        ws(v@.skip(i as int)) == v@.skip(j as int),
{
    let n = v.len();
    let mut j = i;
    loop
        invariant
            i <= j <= n,
            n == v@.len(),
            ws(v@.skip(i as int)) == ws(v@.skip(j as int)),
        decreases n - j,
    {
        if j >= n {
            proof {
                assert(v@.skip(j as int).len() == 0);
            }
            return j;
        }
        let c = v[j];
        proof {
            assert(v@.skip(j as int)[0] == v@[j as int]);
        }
        if !(c == ' ' || c == '\n' || c == '\t' || c == '\r') {
            return j;
        }
        proof {
            assert(v@.skip(j as int).drop_first() =~= v@.skip(j as int + 1));
        }
        j += 1;
    }
}

/// Reads a string body from position `i` on, over its closing quote.
fn x_strbody(v: &Vec<char>, i: usize) -> (r: Option<(Vec<char>, usize)>)
    requires
        i <= v@.len(),
    ensures
        match p_strbody(v@.skip(i as int)) {
            Some((t, rest)) => r matches Some(p) && i <= p.1 <= v@.len() && p.0@ == t && v@.skip(
                p.1 as int,
            ) == rest,
            None => r is None,
        },
    decreases v@.len() - i,
{
    let n = v.len();
    if i >= n {
        proof {
            assert(v@.skip(i as int).len() == 0);
        }
        return None;
    }
    let c = v[i];
    proof {
        assert(v@.skip(i as int)[0] == v@[i as int]);
        assert(v@.skip(i as int).drop_first() =~= v@.skip(i as int + 1));
    }
    if c == '"' {
        let out: Vec<char> = Vec::new();
        proof {
            assert(out@ =~= Seq::<char>::empty());
        }
        return Some((out, i + 1));
    }
    if c == '\\' {
        if i + 1 >= n {
            return None;
        }
        let e = v[i + 1];
        proof {
            assert(v@.skip(i as int)[1] == v@[i as int + 1]);
            assert(v@.skip(i as int).skip(2) =~= v@.skip(i as int + 2));
        }
        match x_unescape(e) {
            None => None,
            Some(u) => {
                match x_strbody(v, i + 2) {
                    None => None,
                    Some((mut t, j)) => {
                        t.insert(0, u);
                        proof {
                            match p_strbody(v@.skip(i as int + 2)) {
                                Some((t2, _)) => {
                                    assert(t@ =~= seq![u] + t2);
                                },
                                None => {},
                            }
                        }
                        Some((t, j))
                    },
                }
            },
        }
    } else {
        match x_strbody(v, i + 1) {
            None => None,
            Some((mut t, j)) => {
                t.insert(0, c);
                proof {
                    match p_strbody(v@.skip(i as int + 1)) {
                        Some((t2, _)) => {
                            assert(t@ =~= seq![c] + t2);
                        },
                        None => {},
                    }
                }
                Some((t, j))
            },
        }
    }
}

/// Reads a quoted string from position `i` on, leading whitespace
/// allowed.
fn x_string(v: &Vec<char>, i: usize) -> (r: Option<(String, usize)>)
    requires
        i <= v@.len(),
    ensures
        match p_string(v@.skip(i as int)) {
            Some((x, rest)) => r matches Some(p) && i <= p.1 <= v@.len() && p.0@ == x && v@.skip(
                p.1 as int,
            ) == rest,
            None => r is None,
        },
{
    let j = x_ws(v, i);
    let n = v.len();
    if j >= n {
        proof {
            assert(v@.skip(j as int).len() == 0);
        }
        return None;
    }
    let c = v[j];
    proof {
        assert(v@.skip(j as int)[0] == v@[j as int]);
        assert(v@.skip(j as int).drop_first() =~= v@.skip(j as int + 1));
    }
    if c != '"' {
        return None;
    }
    match x_strbody(v, j + 1) {
        None => None,
        Some((t, k)) => {
            let s = string_of(&t);
            Some((s, k))
        },
    }
}

/// Reads the entries of a url array from position `i` on, over the
/// closing bracket.
fn x_array_items(v: &Vec<char>, i: usize) -> (r: Option<(Vec<String>, usize)>)
    requires
        i <= v@.len(),
    ensures
        match p_array_items(v@.skip(i as int)) {
            Some((items, rest)) => r matches Some(p) && i <= p.1 <= v@.len() && p.0.deep_view()
                == items && v@.skip(p.1 as int) == rest,
            None => r is None,
        },
    decreases v@.len() - i,
{
    let n = v.len();
    match x_string(v, i) {
        None => None,
        Some((s, j)) => {
            let j2 = x_ws(v, j);
            if j2 >= n {
                proof {
                    assert(v@.skip(j2 as int).len() == 0);
                }
                return None;
            }
            let c = v[j2];
            proof {
                assert(v@.skip(j2 as int)[0] == v@[j2 as int]);
                assert(v@.skip(j2 as int).drop_first() =~= v@.skip(j2 as int + 1));
            }
            if c == ',' {
                proof {
                    assert(v@.skip(j2 as int + 1).len() < v@.skip(i as int).len());
                }
                match x_array_items(v, j2 + 1) {
                    None => None,
                    Some((mut items, k)) => {
                        let ghost pre = items.deep_view();
                        items.insert(0, s);
                        proof {
                            assert(items.deep_view() =~= seq![items@[0]@] + pre);
                        }
                        Some((items, k))
                    },
                }
            } else if c == ']' {
                let mut items: Vec<String> = Vec::new();
                items.push(s);
                proof {
                    assert(items.deep_view() =~= seq![items@[0]@]);
                }
                Some((items, j2 + 1))
            } else {
                None
            }
        },
    }
}

/// Reads a url array from position `i` on, leading whitespace allowed.
fn x_array(v: &Vec<char>, i: usize) -> (r: Option<(Vec<String>, usize)>)
    requires
        i <= v@.len(),
    ensures
        match p_array(v@.skip(i as int)) {
            Some((items, rest)) => r matches Some(p) && i <= p.1 <= v@.len() && p.0.deep_view()
                == items && v@.skip(p.1 as int) == rest,
            None => r is None,
        },
{
    let j = x_ws(v, i);
    let n = v.len();
    if j >= n {
        proof {
            assert(v@.skip(j as int).len() == 0);
        }
        return None;
    }
    let c = v[j];
    proof {
        assert(v@.skip(j as int)[0] == v@[j as int]);
        assert(v@.skip(j as int).drop_first() =~= v@.skip(j as int + 1));
    }
    if c != '[' {
        return None;
    }
    let j2 = x_ws(v, j + 1);
    if j2 < n {
        proof {
            assert(v@.skip(j2 as int)[0] == v@[j2 as int]);
            assert(v@.skip(j2 as int).drop_first() =~= v@.skip(j2 as int + 1));
        }
        let c2 = v[j2];
        if c2 == ']' {
            let items: Vec<String> = Vec::new();
            proof {
                assert(items.deep_view() =~= Seq::<Seq<char>>::empty());
            }
            return Some((items, j2 + 1));
        }
    } else {
        proof {
            assert(v@.skip(j2 as int).len() == 0);
        }
    }
    x_array_items(v, j + 1)
}

/// Reads the entries of a deck mapping from position `i` on, over the
/// closing brace.
fn x_map_items(v: &Vec<char>, i: usize) -> (r: Option<(Vec<Deck>, usize)>)
    requires
        i <= v@.len(),
    ensures
        match p_map_items(v@.skip(i as int)) {
            Some((decks, rest)) => r matches Some(p) && i <= p.1 <= v@.len() && decks_view_of(
                p.0@,
            ) == decks && v@.skip(p.1 as int) == rest,
            None => r is None,
        },
    decreases v@.len() - i,
{
    let n = v.len();
    match x_string(v, i) {
        None => None,
        Some((name, j)) => {
            let j1 = x_ws(v, j);
            if j1 >= n {
                proof {
                    assert(v@.skip(j1 as int).len() == 0);
                }
                return None;
            }
            proof {
                assert(v@.skip(j1 as int)[0] == v@[j1 as int]);
                assert(v@.skip(j1 as int).drop_first() =~= v@.skip(j1 as int + 1));
            }
            if v[j1] != ':' {
                return None;
            }
            match x_array(v, j1 + 1) {
                None => None,
                Some((urls, j2)) => {
                    let j3 = x_ws(v, j2);
                    if j3 >= n {
                        proof {
                            assert(v@.skip(j3 as int).len() == 0);
                        }
                        return None;
                    }
                    let c = v[j3];
                    proof {
                        assert(v@.skip(j3 as int)[0] == v@[j3 as int]);
                        assert(v@.skip(j3 as int).drop_first() =~= v@.skip(j3 as int + 1));
                    }
                    let d = Deck { name, urls };
                    proof {
                        assert(d@.urls =~= d.urls.deep_view());
                    }
                    if c == ',' {
                        proof {
                            assert(v@.skip(j3 as int + 1).len() < v@.skip(i as int).len());
                        }
                        match x_map_items(v, j3 + 1) {
                            None => None,
                            Some((mut decks, k)) => {
                                let ghost pre = decks_view_of(decks@);
                                decks.insert(0, d);
                                proof {
                                    assert(decks_view_of(decks@) =~= seq![decks@[0]@] + pre);
                                }
                                Some((decks, k))
                            },
                        }
                    } else if c == '}' {
                        let mut decks: Vec<Deck> = Vec::new();
                        decks.push(d);
                        proof {
                            assert(decks_view_of(decks@) =~= seq![decks@[0]@]);
                        }
                        Some((decks, j3 + 1))
                    } else {
                        None
                    }
                },
            }
        },
    }
}

/// Reads a deck mapping from position `i` on, leading whitespace
/// allowed.
fn x_map(v: &Vec<char>, i: usize) -> (r: Option<(Vec<Deck>, usize)>)
    requires
        i <= v@.len(),
    ensures
        match p_map(v@.skip(i as int)) {
            Some((decks, rest)) => r matches Some(p) && i <= p.1 <= v@.len() && decks_view_of(
                p.0@,
            ) == decks && v@.skip(p.1 as int) == rest,
            None => r is None,
        },
{
    let j = x_ws(v, i);
    let n = v.len();
    if j >= n {
        proof {
            assert(v@.skip(j as int).len() == 0);
        }
        return None;
    }
    let c = v[j];
    proof {
        assert(v@.skip(j as int)[0] == v@[j as int]);
        assert(v@.skip(j as int).drop_first() =~= v@.skip(j as int + 1));
    }
    if c != '{' {
        return None;
    }
    let j2 = x_ws(v, j + 1);
    if j2 < n {
        proof {
            assert(v@.skip(j2 as int)[0] == v@[j2 as int]);
            assert(v@.skip(j2 as int).drop_first() =~= v@.skip(j2 as int + 1));
        }
        let c2 = v[j2];
        if c2 == '}' {
            let decks: Vec<Deck> = Vec::new();
            proof {
                assert(decks_view_of(decks@) =~= Seq::<DeckView>::empty());
            }
            return Some((decks, j2 + 1));
        }
    } else {
        proof {
            assert(v@.skip(j2 as int).len() == 0);
        }
    }
    x_map_items(v, j + 1)
}

/// Reads the last-action record from position `i` on, leading
/// whitespace allowed.
fn x_last(v: &Vec<char>, i: usize) -> (r: Option<(Option<Picture>, usize)>)
    requires
        i <= v@.len(),
    ensures
        match p_last(v@.skip(i as int)) {
            Some((last, rest)) => r matches Some(p) && i <= p.1 <= v@.len() && last_view_of(p.0)
                == last && v@.skip(p.1 as int) == rest,
            None => r is None,
        },
{
    let j = x_ws(v, i);
    let n = v.len();
    let ghost s1 = v@.skip(j as int);
    if j >= n {
        proof {
            assert(s1.len() == 0);
        }
        return None;
    }
    let c = v[j];
    proof {
        assert(s1[0] == v@[j as int]);
    }
    if c == 'n' {
        if n - j >= 4 && v[j + 1] == 'u' && v[j + 2] == 'l' && v[j + 3] == 'l' {
            proof {
                assert(s1[1] == v@[j as int + 1]);
                assert(s1[2] == v@[j as int + 2]);
                assert(s1[3] == v@[j as int + 3]);
                assert(s1.take(4) =~= kw_null());
                assert(s1.skip(4) =~= v@.skip(j as int + 4));
            }
            return Some((None, j + 4));
        } else {
            proof {
                if s1.len() >= 4 {
                    assert(s1[1] == v@[j as int + 1]);
                    assert(s1[2] == v@[j as int + 2]);
                    assert(s1[3] == v@[j as int + 3]);
                    if v@[j as int + 1] != 'u' {
                        assert(s1.take(4)[1] != kw_null()[1]);
                    } else if v@[j as int + 2] != 'l' {
                        assert(s1.take(4)[2] != kw_null()[2]);
                    } else {
                        assert(v@[j as int + 3] != 'l');
                        assert(s1.take(4)[3] != kw_null()[3]);
                    }
                    assert(s1.take(4) != kw_null());
                }
                assert(p_lit(s1, kw_null()) is None);
            }
            return None;
        }
    }
    proof {
        if s1.len() >= 4 {
            assert(s1.take(4)[0] == s1[0]);
            assert(kw_null()[0] == 'n');
            assert(s1.take(4) != kw_null());
        }
        assert(p_lit(s1, kw_null()) is None);
    }
    if c != '{' {
        return None;
    }
    proof {
        assert(s1.drop_first() =~= v@.skip(j as int + 1));
        reveal_strlit("deck");
        reveal_strlit("url");
        assert("deck"@ =~= kw_deck());
        assert("url"@ =~= kw_url());
    }
    match x_string(v, j + 1) {
        None => None,
        Some((k1, j1)) => {
            if !str_eq(k1.as_str(), "deck") {
                return None;
            }
            let j2 = x_ws(v, j1);
            if j2 >= n {
                proof {
                    assert(v@.skip(j2 as int).len() == 0);
                }
                return None;
            }
            proof {
                assert(v@.skip(j2 as int)[0] == v@[j2 as int]);
                assert(v@.skip(j2 as int).drop_first() =~= v@.skip(j2 as int + 1));
            }
            if v[j2] != ':' {
                return None;
            }
            match x_string(v, j2 + 1) {
                None => None,
                Some((deck_name, j3)) => {
                    let j4 = x_ws(v, j3);
                    if j4 >= n {
                        proof {
                            assert(v@.skip(j4 as int).len() == 0);
                        }
                        return None;
                    }
                    proof {
                        assert(v@.skip(j4 as int)[0] == v@[j4 as int]);
                        assert(v@.skip(j4 as int).drop_first() =~= v@.skip(j4 as int + 1));
                    }
                    if v[j4] != ',' {
                        return None;
                    }
                    match x_string(v, j4 + 1) {
                        None => None,
                        Some((k2, j5)) => {
                            if !str_eq(k2.as_str(), "url") {
                                return None;
                            }
                            let j6 = x_ws(v, j5);
                            if j6 >= n {
                                proof {
                                    assert(v@.skip(j6 as int).len() == 0);
                                }
                                return None;
                            }
                            proof {
                                assert(v@.skip(j6 as int)[0] == v@[j6 as int]);
                                assert(v@.skip(j6 as int).drop_first() =~= v@.skip(
                                    j6 as int + 1,
                                ));
                            }
                            if v[j6] != ':' {
                                return None;
                            }
                            match x_string(v, j6 + 1) {
                                None => None,
                                Some((url_val, j7)) => {
                                    let j8 = x_ws(v, j7);
                                    if j8 >= n {
                                        proof {
                                            assert(v@.skip(j8 as int).len() == 0);
                                        }
                                        return None;
                                    }
                                    proof {
                                        assert(v@.skip(j8 as int)[0] == v@[j8 as int]);
                                        assert(v@.skip(j8 as int).drop_first() =~= v@.skip(
                                            j8 as int + 1,
                                        ));
                                    }
                                    if v[j8] != '}' {
                                        return None;
                                    }
                                    Some((Some(Picture { deck: deck_name, url: url_val }), j8 + 1))
                                },
                            }
                        },
                    }
                },
            }
        },
    }
}

/// Reads a whole document, with nothing but whitespace after it.
fn x_doc(v: &Vec<char>) -> (r: Option<(Vec<Deck>, Option<Picture>)>)
    ensures
        match p_doc(v@) {
            Some((decks, last)) => r matches Some(p) && decks_view_of(p.0@) == decks
                && last_view_of(p.1) == last,
            None => r is None,
        },
{
    let n = v.len();
    proof {
        assert(v@.skip(0) =~= v@);
        reveal_strlit("pictures");
        reveal_strlit("last_sent");
        assert("pictures"@ =~= kw_pictures());
        assert("last_sent"@ =~= kw_last_sent());
    }
    let j = x_ws(v, 0);
    if j >= n {
        proof {
            assert(v@.skip(j as int).len() == 0);
        }
        return None;
    }
    proof {
        assert(v@.skip(j as int)[0] == v@[j as int]);
        assert(v@.skip(j as int).drop_first() =~= v@.skip(j as int + 1));
    }
    if v[j] != '{' {
        return None;
    }
    match x_string(v, j + 1) {
        None => None,
        Some((k1, j1)) => {
            if !str_eq(k1.as_str(), "pictures") {
                return None;
            }
            let j2 = x_ws(v, j1);
            if j2 >= n {
                proof {
                    assert(v@.skip(j2 as int).len() == 0);
                }
                return None;
            }
            proof {
                assert(v@.skip(j2 as int)[0] == v@[j2 as int]);
                assert(v@.skip(j2 as int).drop_first() =~= v@.skip(j2 as int + 1));
            }
            if v[j2] != ':' {
                return None;
            }
            match x_map(v, j2 + 1) {
                None => None,
                Some((decks, j3)) => {
                    let j4 = x_ws(v, j3);
                    if j4 >= n {
                        proof {
                            assert(v@.skip(j4 as int).len() == 0);
                        }
                        return None;
                    }
                    proof {
                        assert(v@.skip(j4 as int)[0] == v@[j4 as int]);
                        assert(v@.skip(j4 as int).drop_first() =~= v@.skip(j4 as int + 1));
                    }
                    if v[j4] != ',' {
                        return None;
                    }
                    match x_string(v, j4 + 1) {
                        None => None,
                        Some((k2, j5)) => {
                            if !str_eq(k2.as_str(), "last_sent") {
                                return None;
                            }
                            let j6 = x_ws(v, j5);
                            if j6 >= n {
                                proof {
                                    assert(v@.skip(j6 as int).len() == 0);
                                }
                                return None;
                            }
                            proof {
                                assert(v@.skip(j6 as int)[0] == v@[j6 as int]);
                                assert(v@.skip(j6 as int).drop_first() =~= v@.skip(
                                    j6 as int + 1,
                                ));
                            }
                            if v[j6] != ':' {
                                return None;
                            }
                            match x_last(v, j6 + 1) {
                                None => None,
                                Some((last, j7)) => {
                                    let j8 = x_ws(v, j7);
                                    if j8 >= n {
                                        proof {
                                            assert(v@.skip(j8 as int).len() == 0);
                                        }
                                        return None;
                                    }
                                    proof {
                                        assert(v@.skip(j8 as int)[0] == v@[j8 as int]);
                                        assert(v@.skip(j8 as int).drop_first() =~= v@.skip(
                                            j8 as int + 1,
                                        ));
                                    }
                                    if v[j8] != '}' {
                                        return None;
                                    }
                                    let j9 = x_ws(v, j8 + 1);
                                    if j9 < n {
                                        proof {
                                            assert(v@.skip(j9 as int).len() > 0);
                                        }
                                        return None;
                                    }
                                    proof {
                                        assert(v@.skip(j9 as int).len() == 0);
                                    }
                                    Some((decks, last))
                                },
                            }
                        },
                    }
                },
            }
        },
    }
}

/// Decides whether a parsed deck list satisfies the store's
/// invariant.
fn check_valid(decks: &Vec<Deck>) -> (r: bool)
    ensures
        r == parse_valid(decks_view_of(decks@)),
{
    let ghost dv = decks_view_of(decks@);
    let n = decks.len();
    let mut k: usize = 0;
    while k < n
        invariant
            n == decks@.len(),
            dv == decks_view_of(decks@),
            k <= n,
            forall|i: int| 0 <= i < k ==> dv[i].urls.len() > 0,
        decreases n - k,
    {
        if decks[k].urls.len() == 0 {
            proof {
                assert(dv[k as int].urls.len() == 0);
            }
            return false;
        }
        k += 1;
    }
    k = 0;
    while k < n
        invariant
            n == decks@.len(),
            dv == decks_view_of(decks@),
            k <= n,
            forall|i: int, j: int| 0 <= i < j < k ==> dv[i].name != dv[j].name,
        decreases n - k,
    {
        let mut m: usize = 0;
        while m < k
            invariant
                n == decks@.len(),
                dv == decks_view_of(decks@),
                m <= k < n,
                forall|j: int| 0 <= j < m ==> dv[j].name != dv[k as int].name,
            decreases k - m,
        {
            if str_eq(decks[m].name.as_str(), decks[k].name.as_str()) {
                proof {
                    assert(dv[m as int].name == dv[k as int].name);
                }
                return false;
            }
            m += 1;
        }
        k += 1;
    }
    let mut acc: usize = 0;
    k = 0;
    proof {
        assert(dv.take(0) =~= Seq::<DeckView>::empty());
    }
    while k < n
        invariant
            n == decks@.len(),
            dv == decks_view_of(decks@),
            k <= n,
            acc == pcount(dv.take(k as int)),
        decreases n - k,
    {
        let len = decks[k].urls.len();
        proof {
            assert(dv[k as int].urls.len() == len);
            assert(dv.take(k as int + 1) =~= dv.take(k as int).push(dv[k as int]));
            crate::album::lemma_pcount_push(dv.take(k as int), dv[k as int]);
        }
        if len > usize::MAX - acc {
            proof {
                assert(dv.take(k as int + 1) + dv.skip(k as int + 1) =~= dv);
                crate::album::lemma_pcount_concat(dv.take(k as int + 1), dv.skip(k as int + 1));
                assert(pcount(dv) > usize::MAX);
            }
            return false;
        }
        acc += len;
        k += 1;
    }
    proof {
        assert(dv.take(n as int) =~= dv);
    }
    true
}

/// Reads a persisted document back into a deck list and a last-action
/// record, rejecting malformed text and content that breaks the
/// store's invariant.
pub(crate) fn parse_document_exec(doc: &str) -> (r: Option<(Vec<Deck>, Option<Picture>)>)
    ensures
        match parse_document(doc@) {
            Some((decks, last)) => r matches Some(p) && decks_view_of(p.0@) == decks
                && last_view_of(p.1) == last,
            None => r is None,
        },
{
    let v = chars_of(doc);
    match x_doc(&v) {
        None => None,
        Some((decks, last)) => {
            if check_valid(&decks) {
                Some((decks, last))
            } else {
                None
            }
        },
    }
}

/// Renders the persisted document for the given decks and last-action
/// record.
pub(crate) fn render_document(decks: &Vec<Deck>, last: &Option<Picture>) -> (r: String)
    ensures
        r@ == enc_doc(decks_view_of(decks@), last_view_of(*last)),
{
    let mut out: Vec<char> = Vec::new();
    out.push('{');
    e_nl1(&mut out);
    e_quot(&mut out, "pictures");
    out.push(':');
    out.push(' ');
    e_map(&mut out, decks);
    out.push(',');
    e_nl1(&mut out);
    e_quot(&mut out, "last_sent");
    out.push(':');
    out.push(' ');
    e_last(&mut out, last);
    out.push('\n');
    out.push('}');
    proof {
        reveal_strlit("pictures");
        reveal_strlit("last_sent");
        assert("pictures"@ =~= kw_pictures());
        assert("last_sent"@ =~= kw_last_sent());
        assert(out@ =~= enc_doc(decks_view_of(decks@), last_view_of(*last)));
    }
    string_of(&out)
}

} // verus!
