//! Tolerant incremental parser for nginx access-log lines.
//!
//! [`parse_nginx_line`] decomposes a line into ordered fields with their
//! original separators retained; it never fails, never panics, and never
//! drops a character: whatever cannot be parsed is kept verbatim in `tail`.
//! [`ParsedLine::render`] walks the same fields back out, coloring the HTTP
//! method and the status code; stripping the inserted colors recovers the
//! input exactly (see [`lemma_render_round_trip`]).

use crate::terminal;
use vstd::prelude::*;

verus! {

/// Index of the first occurrence of `c` in `s` at position `from` or later.
pub open spec fn find_at(s: Seq<char>, from: int, c: char) -> Option<int>
    decreases s.len() - from,
{
    if from < 0 || from >= s.len() {
        None
    } else if s[from] == c {
        Some(from)
    } else {
        find_at(s, from + 1, c)
    }
}

/// What a `find_at` result means: a hit is the first occurrence, a miss
/// says the character does not occur at or after `from`.
pub proof fn lemma_find_at(s: Seq<char>, from: int, c: char)
    requires
        0 <= from,
    ensures
        match find_at(s, from, c) {
            Some(i) => from <= i < s.len() && s[i] == c && (forall|j: int|
                from <= j < i ==> s[j] != c),
            None => forall|j: int| from <= j < s.len() ==> s[j] != c,
        },
    decreases s.len() - from,
{
    if from < s.len() && s[from] != c {
        lemma_find_at(s, from + 1, c);
    }
}

/// An access-log line split into its fields.
///
/// A field named after two neighbours (such as `date_method`) holds the
/// separator text that stood between them; it is `None` once parsing ran out
/// of input before reaching that separator. Whatever followed the last
/// recognized delimiter is kept verbatim in `tail`, so the fields and
/// separators concatenated in order always reproduce the input exactly.
pub struct ParsedLine {
    pub head: String,
    pub head_date: Option<String>,
    pub date: String,
    pub date_method: Option<String>,
    pub method: String,
    pub method_url: Option<String>,
    pub url: String,
    pub url_lvl: Option<String>,
    pub protocollvl: String,
    pub lvl_statuscode: Option<String>,
    pub statuscode: String,
    pub tail: String,
}

/// The mathematical shape of a [`ParsedLine`]: the same fields as sequences
/// of characters.
#[verifier::ext_equal]
pub ghost struct ParsedLineView {
    pub head: Seq<char>,
    pub head_date: Option<Seq<char>>,
    pub date: Seq<char>,
    pub date_method: Option<Seq<char>>,
    pub method: Seq<char>,
    pub method_url: Option<Seq<char>>,
    pub url: Seq<char>,
    pub url_lvl: Option<Seq<char>>,
    pub protocollvl: Seq<char>,
    pub lvl_statuscode: Option<Seq<char>>,
    pub statuscode: Seq<char>,
    pub tail: Seq<char>,
}

/// View of an optional string as an optional character sequence.
pub open spec fn opt_view(o: Option<String>) -> Option<Seq<char>> {
    match o {
        Some(s) => Some(s@),
        None => None,
    }
}

impl View for ParsedLine {
    type V = ParsedLineView;

    open spec fn view(&self) -> ParsedLineView {
        ParsedLineView {
            head: self.head@,
            head_date: opt_view(self.head_date),
            date: self.date@,
            date_method: opt_view(self.date_method),
            method: self.method@,
            method_url: opt_view(self.method_url),
            url: self.url@,
            url_lvl: opt_view(self.url_lvl),
            protocollvl: self.protocollvl@,
            lvl_statuscode: opt_view(self.lvl_statuscode),
            statuscode: self.statuscode@,
            tail: self.tail@,
        }
    }
}

/// A parse with every field still at its starting value.
pub open spec fn plv_empty() -> ParsedLineView {
    ParsedLineView {
        head: Seq::<char>::empty(),
        head_date: None,
        date: Seq::<char>::empty(),
        date_method: None,
        method: Seq::<char>::empty(),
        method_url: None,
        url: Seq::<char>::empty(),
        url_lvl: None,
        protocollvl: Seq::<char>::empty(),
        lvl_statuscode: None,
        statuscode: Seq::<char>::empty(),
        tail: Seq::<char>::empty(),
    }
}

/// The parse of a line: hunt for the literal delimiters of the access-log
/// format in order (`[`, `]` space `"`, two spaces, `"` space, a final
/// space); at the first delimiter that is missing, keep every field found so
/// far, leave the separator at the stopping point absent, and put all
/// remaining characters in `tail`.
pub open spec fn parse_line_spec(s: Seq<char>) -> ParsedLineView {
    match find_at(s, 0, '[') {
        None => ParsedLineView { head: s, ..plv_empty() },
        Some(i1) => {
            let head = s.take(i1);
            match find_at(s, i1 + 1, ']') {
                None => ParsedLineView {
                    head,
                    head_date: Some(seq!['[']),
                    date: s.skip(i1 + 1),
                    ..plv_empty()
                },
                Some(i2) => {
                    let date = s.subrange(i1 + 1, i2);
                    if i2 + 1 >= s.len() {
                        ParsedLineView {
                            head,
                            head_date: Some(seq!['[']),
                            date,
                            date_method: Some(seq![']']),
                            ..plv_empty()
                        }
                    } else if s[i2 + 1] != ' ' {
                        ParsedLineView {
                            head,
                            head_date: Some(seq!['[']),
                            date,
                            date_method: Some(seq![']']),
                            tail: s.skip(i2 + 1),
                            ..plv_empty()
                        }
                    } else {
                        match find_at(s, i2 + 2, '"') {
                            None => ParsedLineView {
                                head,
                                head_date: Some(seq!['[']),
                                date,
                                date_method: Some(seq![']', ' '] + s.skip(i2 + 2)),
                                ..plv_empty()
                            },
                            Some(i3) => {
                                let date_method = seq![']', ' '] + s.subrange(i2 + 2, i3)
                                    + seq!['"'];
                                match find_at(s, i3 + 1, ' ') {
                                    None => ParsedLineView {
                                        head,
                                        head_date: Some(seq!['[']),
                                        date,
                                        date_method: Some(date_method),
                                        method: s.skip(i3 + 1),
                                        ..plv_empty()
                                    },
                                    Some(i4) => {
                                        let method = s.subrange(i3 + 1, i4);
                                        match find_at(s, i4 + 1, ' ') {
                                            None => ParsedLineView {
                                                head,
                                                head_date: Some(seq!['[']),
                                                date,
                                                date_method: Some(date_method),
                                                method,
                                                method_url: Some(seq![' ']),
                                                url: s.skip(i4 + 1),
                                                ..plv_empty()
                                            },
                                            Some(i5) => {
                                                let url = s.subrange(i4 + 1, i5);
                                                parse_after_url(s, head, date, date_method,
                                                    method, url, i5)
                                            },
                                        }
                                    },
                                }
                            },
                        }
                    }
                },
            }
        },
    }
}

/// Continuation of [`parse_line_spec`] once the URL field has been cut out:
/// the protocol level runs to the closing quote, then one space, then the
/// status code runs to the next space, whose own text already belongs to
/// `tail`.
pub open spec fn parse_after_url(
    s: Seq<char>,
    head: Seq<char>,
    date: Seq<char>,
    date_method: Seq<char>,
    method: Seq<char>,
    url: Seq<char>,
    i5: int,
) -> ParsedLineView {
    let common = ParsedLineView {
        head,
        head_date: Some(seq!['[']),
        date,
        date_method: Some(date_method),
        method,
        method_url: Some(seq![' ']),
        url,
        url_lvl: Some(seq![' ']),
        ..plv_empty()
    };
    match find_at(s, i5 + 1, '"') {
        None => ParsedLineView { protocollvl: s.skip(i5 + 1), ..common },
        Some(i6) => {
            let protocollvl = s.subrange(i5 + 1, i6);
            if i6 + 1 >= s.len() {
                ParsedLineView { protocollvl, lvl_statuscode: Some(seq!['"']), ..common }
            } else if s[i6 + 1] != ' ' {
                ParsedLineView {
                    protocollvl,
                    lvl_statuscode: Some(seq!['"']),
                    tail: s.skip(i6 + 1),
                    ..common
                }
            } else {
                match find_at(s, i6 + 2, ' ') {
                    None => ParsedLineView {
                        protocollvl,
                        lvl_statuscode: Some(seq!['"', ' ']),
                        statuscode: s.skip(i6 + 2),
                        ..common
                    },
                    Some(i7) => ParsedLineView {
                        protocollvl,
                        lvl_statuscode: Some(seq!['"', ' ']),
                        statuscode: s.subrange(i6 + 2, i7),
                        tail: s.skip(i7),
                        ..common
                    },
                }
            }
        },
    }
}

} // verus!

verus! {

/// Scan for the first occurrence of `c` at position `from` or later.
fn find_char_from(s: &str, from: usize, c: char) -> (r: Option<usize>)
    requires
        from <= s@.len(),
    ensures
        match r {
            Some(i) => from <= i < s@.len() && Some(i as int) == find_at(s@, from as int, c),
            None => None::<int> == find_at(s@, from as int, c),
        },
{
    let n = s.unicode_len();
    let mut i = from;
    while i < n
        invariant
            from <= i <= n,
            n == s@.len(),
            find_at(s@, from as int, c) == find_at(s@, i as int, c),
        decreases n - i,
    {
        if s.get_char(i) == c {
            return Some(i);
        }
        i = i + 1;
    }
    None
}

/// Parse one access-log line. This accepts any input: a truncated or
/// malformed line simply stops at the first missing delimiter, with the
/// rest of the text kept in `tail`.
pub fn parse_nginx_line(line: &str) -> (r: ParsedLine)
    ensures
        r@ == parse_line_spec(line@),
{
    let n = line.unicode_len();
    let mut p = ParsedLine {
        head: String::new(),
        head_date: None,
        date: String::new(),
        date_method: None,
        method: String::new(),
        method_url: None,
        url: String::new(),
        url_lvl: None,
        protocollvl: String::new(),
        lvl_statuscode: None,
        statuscode: String::new(),
        tail: String::new(),
    };
    proof {
        reveal_strlit("[");
        reveal_strlit("]");
        reveal_strlit("] ");
        reveal_strlit("\"");
        reveal_strlit("\" ");
        reveal_strlit(" ");
    }
    let i1 = match find_char_from(line, 0, '[') {
        None => {
            p.head = String::from_str(line);
            proof {
                assert(p@ =~= parse_line_spec(line@));
            }
            return p;
        },
        Some(i) => i,
    };
    p.head = String::from_str(line.substring_char(0, i1));
    p.head_date = Some(String::from_str("["));
    proof {
        assert("["@ =~= seq!['[']);
    }
    let i2 = match find_char_from(line, i1 + 1, ']') {
        None => {
            p.date = String::from_str(line.substring_char(i1 + 1, n));
            proof {
                assert(p@ =~= parse_line_spec(line@));
            }
            return p;
        },
        Some(i) => i,
    };
    p.date = String::from_str(line.substring_char(i1 + 1, i2));
    p.date_method = Some(String::from_str("]"));
    proof {
        assert("]"@ =~= seq![']']);
    }
    if i2 + 1 >= n {
        proof {
            assert(p@ =~= parse_line_spec(line@));
        }
        return p;
    }
    if line.get_char(i2 + 1) != ' ' {
        p.tail = String::from_str(line.substring_char(i2 + 1, n));
        proof {
            assert(p@ =~= parse_line_spec(line@));
        }
        return p;
    }
    let i3 = match find_char_from(line, i2 + 2, '"') {
        None => {
            let mut dm = String::from_str("] ");
            dm.append(line.substring_char(i2 + 2, n));
            proof {
                assert(dm@ =~= seq![']', ' '] + line@.skip(i2 + 2));
            }
            p.date_method = Some(dm);
            proof {
                assert(p@ =~= parse_line_spec(line@));
            }
            return p;
        },
        Some(i) => i,
    };
    let mut dm = String::from_str("] ");
    dm.append(line.substring_char(i2 + 2, i3));
    dm.append("\"");
    proof {
        assert(dm@ =~= seq![']', ' '] + line@.subrange(i2 + 2, i3 as int) + seq!['"']);
    }
    p.date_method = Some(dm);
    let i4 = match find_char_from(line, i3 + 1, ' ') {
        None => {
            p.method = String::from_str(line.substring_char(i3 + 1, n));
            proof {
                assert(p@ =~= parse_line_spec(line@));
            }
            return p;
        },
        Some(i) => i,
    };
    p.method = String::from_str(line.substring_char(i3 + 1, i4));
    p.method_url = Some(String::from_str(" "));
    proof {
        assert(" "@ =~= seq![' ']);
    }
    let i5 = match find_char_from(line, i4 + 1, ' ') {
        None => {
            p.url = String::from_str(line.substring_char(i4 + 1, n));
            proof {
                assert(p@ =~= parse_line_spec(line@));
            }
            return p;
        },
        Some(i) => i,
    };
    p.url = String::from_str(line.substring_char(i4 + 1, i5));
    p.url_lvl = Some(String::from_str(" "));
    let i6 = match find_char_from(line, i5 + 1, '"') {
        None => {
            p.protocollvl = String::from_str(line.substring_char(i5 + 1, n));
            proof {
                assert(p@ =~= parse_line_spec(line@));
            }
            return p;
        },
        Some(i) => i,
    };
    p.protocollvl = String::from_str(line.substring_char(i5 + 1, i6));
    p.lvl_statuscode = Some(String::from_str("\""));
    proof {
        assert("\""@ =~= seq!['"']);
    }
    if i6 + 1 >= n {
        proof {
            assert(p@ =~= parse_line_spec(line@));
        }
        return p;
    }
    if line.get_char(i6 + 1) != ' ' {
        p.tail = String::from_str(line.substring_char(i6 + 1, n));
        proof {
            assert(p@ =~= parse_line_spec(line@));
        }
        return p;
    }
    p.lvl_statuscode = Some(String::from_str("\" "));
    proof {
        assert("\" "@ =~= seq!['"', ' ']);
    }
    let i7 = match find_char_from(line, i6 + 2, ' ') {
        None => {
            p.statuscode = String::from_str(line.substring_char(i6 + 2, n));
            proof {
                assert(p@ =~= parse_line_spec(line@));
            }
            return p;
        },
        Some(i) => i,
    };
    p.statuscode = String::from_str(line.substring_char(i6 + 2, i7));
    p.tail = String::from_str(line.substring_char(i7, n));
    proof {
        assert(p@ =~= parse_line_spec(line@));
    }
    p
}

} // verus!

verus! {

/// The status-code extraction outcome on a given line: the text between the
/// character after the second quote and the next space, or the error naming
/// the first missing landmark (`?A` no opening quote, `?B` no closing quote,
/// `?E` nothing after the closing quote, `?C` no trailing space).
pub open spec fn extract_statuscode_spec(s: Seq<char>) -> Result<Seq<char>, Seq<char>> {
    match find_at(s, 0, '"') {
        None => Err(seq!['?', 'A']),
        Some(q1) => match find_at(s, q1 + 1, '"') {
            None => Err(seq!['?', 'B']),
            Some(q2) => if s.len() < q2 + 2 {
                Err(seq!['?', 'E'])
            } else {
                match find_at(s, q2 + 2, ' ') {
                    None => Err(seq!['?', 'C']),
                    Some(sp) => Ok(s.subrange(q2 + 2, sp)),
                }
            },
        },
    }
}

/// Pull the HTTP status code out of an access-log line: the token between
/// the end of the second quoted field and the following space. Each way the
/// landmarks can be missing yields its own short reason code.
pub fn extract_statuscode(line: &str) -> (r: Result<String, String>)
    ensures
        match r {
            Ok(code) => extract_statuscode_spec(line@) == Ok::<Seq<char>, Seq<char>>(code@),
            Err(e) => extract_statuscode_spec(line@) == Err::<Seq<char>, Seq<char>>(e@),
        },
{
    proof {
        reveal_strlit("?A");
        reveal_strlit("?B");
        reveal_strlit("?C");
        reveal_strlit("?E");
        assert("?A"@ =~= seq!['?', 'A']);
        assert("?B"@ =~= seq!['?', 'B']);
        assert("?C"@ =~= seq!['?', 'C']);
        assert("?E"@ =~= seq!['?', 'E']);
    }
    let n = line.unicode_len();
    let q1 = match find_char_from(line, 0, '"') {
        None => {
            return Err(String::from_str("?A"));
        },
        Some(i) => i,
    };
    let q2 = match find_char_from(line, q1 + 1, '"') {
        None => {
            return Err(String::from_str("?B"));
        },
        Some(i) => i,
    };
    if n - q2 < 2 {
        return Err(String::from_str("?E"));
    }
    match find_char_from(line, q2 + 2, ' ') {
        None => Err(String::from_str("?C")),
        Some(sp) => Ok(String::from_str(line.substring_char(q2 + 2, sp))),
    }
}

/// The color wrapped around a status code: chosen by the leading digit
/// (`2` green, `3` purple, `4` yellow, `5` red, anything else white), with
/// no color at all around an empty code.
pub open spec fn code_color_spec(code: Seq<char>) -> (Seq<char>, Seq<char>) {
    if code.len() == 0 {
        (Seq::<char>::empty(), Seq::<char>::empty())
    } else if code[0] == '2' {
        (terminal::green_seq(), terminal::reset_seq())
    } else if code[0] == '3' {
        (terminal::purple_seq(), terminal::reset_seq())
    } else if code[0] == '4' {
        (terminal::yellow_seq(), terminal::reset_seq())
    } else if code[0] == '5' {
        (terminal::red_seq(), terminal::reset_seq())
    } else {
        (terminal::white_seq(), terminal::reset_seq())
    }
}

/// The start and end escape sequences that color a status code.
pub fn code2color(code: &str) -> (r: (&'static str, &'static str))
    ensures
        r.0@ == code_color_spec(code@).0,
        r.1@ == code_color_spec(code@).1,
{
    if code.unicode_len() == 0 {
        let e = "";
        proof {
            reveal_strlit("");
            assert(e@ =~= Seq::<char>::empty());
        }
        (e, e)
    } else {
        let c = code.get_char(0);
        if c == '2' {
            (terminal::green(), terminal::reset())
        } else if c == '3' {
            (terminal::purple(), terminal::reset())
        } else if c == '4' {
            (terminal::yellow(), terminal::reset())
        } else if c == '5' {
            (terminal::red(), terminal::reset())
        } else {
            (terminal::white(), terminal::reset())
        }
    }
}

} // verus!

verus! {

/// The color wrapped around the HTTP method: `POST` is highlighted in
/// bright white, every other method is left bare.
pub open spec fn method_color_spec(method: Seq<char>) -> (Seq<char>, Seq<char>) {
    if method == seq!['P', 'O', 'S', 'T'] {
        (terminal::white_seq(), terminal::reset_seq())
    } else {
        (Seq::<char>::empty(), Seq::<char>::empty())
    }
}

/// The fields and separators concatenated back in order, with `tail` flushed
/// at the first absent separator: by construction of the parse this is the
/// original line, character for character.
pub open spec fn plain_text(p: ParsedLineView) -> Seq<char> {
    p.head + match p.head_date {
        None => p.tail,
        Some(hd) => hd + p.date + match p.date_method {
            None => p.tail,
            Some(dm) => dm + p.method + match p.method_url {
                None => p.tail,
                Some(mu) => mu + p.url + match p.url_lvl {
                    None => p.tail,
                    Some(ul) => ul + p.protocollvl + match p.lvl_statuscode {
                        None => p.tail,
                        Some(ls) => ls + p.statuscode + p.tail,
                    },
                },
            },
        },
    }
}

/// The same walk as [`plain_text`], with the method and the status code
/// wrapped in their colors.
pub open spec fn rendered_text(p: ParsedLineView) -> Seq<char> {
    p.head + match p.head_date {
        None => p.tail,
        Some(hd) => hd + p.date + match p.date_method {
            None => p.tail,
            Some(dm) => dm + method_color_spec(p.method).0 + p.method + method_color_spec(
                p.method,
            ).1 + match p.method_url {
                None => p.tail,
                Some(mu) => mu + p.url + match p.url_lvl {
                    None => p.tail,
                    Some(ul) => ul + p.protocollvl + match p.lvl_statuscode {
                        None => p.tail,
                        Some(ls) => ls + code_color_spec(p.statuscode).0 + p.statuscode
                            + code_color_spec(p.statuscode).1 + p.tail,
                    },
                },
            },
        },
    }
}

impl ParsedLine {
    /// Write the line back out for display: the fields in order, stopping
    /// and flushing `tail` at the first absent separator, with the method
    /// and the status code wrapped in their colors.
    #[verifier::rlimit(100)]
    #[verifier::spinoff_prover]
    pub fn render(&self) -> (r: String)
        ensures
            r@ == rendered_text(self@),
    {
        let mut r = String::new();
        r.append(self.head.as_str());
        let hd = match &self.head_date {
            None => {
                r.append(self.tail.as_str());
                return r;
            },
            Some(x) => x,
        };
        r.append(hd.as_str());
        r.append(self.date.as_str());
        let dm = match &self.date_method {
            None => {
                r.append(self.tail.as_str());
                return r;
            },
            Some(x) => x,
        };
        r.append(dm.as_str());
        let m = self.method.as_str();
        let is_post = m.unicode_len() == 4 && m.get_char(0) == 'P' && m.get_char(1) == 'O'
            && m.get_char(2) == 'S' && m.get_char(3) == 'T';
        proof {
            assert(is_post ==> m@ =~= seq!['P', 'O', 'S', 'T']);
        }
        if is_post {
            r.append(terminal::white());
            r.append(m);
            r.append(terminal::reset());
        } else {
            r.append(m);
        }
        let mu = match &self.method_url {
            None => {
                r.append(self.tail.as_str());
                return r;
            },
            Some(x) => x,
        };
        r.append(mu.as_str());
        r.append(self.url.as_str());
        let ul = match &self.url_lvl {
            None => {
                r.append(self.tail.as_str());
                return r;
            },
            Some(x) => x,
        };
        r.append(ul.as_str());
        r.append(self.protocollvl.as_str());
        let ls = match &self.lvl_statuscode {
            None => {
                r.append(self.tail.as_str());
                return r;
            },
            Some(x) => x,
        };
        r.append(ls.as_str());
        let (color, reset) = code2color(self.statuscode.as_str());
        r.append(color);
        r.append(self.statuscode.as_str());
        r.append(reset);
        r.append(self.tail.as_str());
        r
    }
}

} // verus!

verus! {

/// Formatting a parse and concatenating the pieces gives back exactly the
/// parsed line: the parser never drops or invents a character, whatever the
/// input looked like.
pub proof fn lemma_parse_reconstructs(s: Seq<char>)
    ensures
        plain_text(parse_line_spec(s)) =~= s,
{
    lemma_find_at(s, 0, '[');
    match find_at(s, 0, '[') {
        None => {},
        Some(i1) => {
            lemma_find_at(s, i1 + 1, ']');
            match find_at(s, i1 + 1, ']') {
                None => {},
                Some(i2) => {
                    if i2 + 1 >= s.len() {
                    } else if s[i2 + 1] != ' ' {
                    } else {
                        lemma_find_at(s, i2 + 2, '"');
                        match find_at(s, i2 + 2, '"') {
                            None => {},
                            Some(i3) => {
                                lemma_find_at(s, i3 + 1, ' ');
                                match find_at(s, i3 + 1, ' ') {
                                    None => {},
                                    Some(i4) => {
                                        lemma_find_at(s, i4 + 1, ' ');
                                        match find_at(s, i4 + 1, ' ') {
                                            None => {},
                                            Some(i5) => {
                                                lemma_parse_after_url_reconstructs(s, i1, i2,
                                                    i3, i4, i5);
                                            },
                                        }
                                    },
                                }
                            },
                        }
                    }
                },
            }
        },
    }
}

/// The reconstruction argument for the stages behind the URL field.
#[verifier::rlimit(100)]
proof fn lemma_parse_after_url_reconstructs(s: Seq<char>, i1: int, i2: int, i3: int, i4: int,
    i5: int)
    requires
        find_at(s, 0, '[') == Some(i1),
        find_at(s, i1 + 1, ']') == Some(i2),
        i2 + 1 < s.len(),
        s[i2 + 1] == ' ',
        find_at(s, i2 + 2, '"') == Some(i3),
        find_at(s, i3 + 1, ' ') == Some(i4),
        find_at(s, i4 + 1, ' ') == Some(i5),
    ensures
        plain_text(parse_line_spec(s)) =~= s,
{
    lemma_find_at(s, 0, '[');
    lemma_find_at(s, i1 + 1, ']');
    lemma_find_at(s, i2 + 2, '"');
    lemma_find_at(s, i3 + 1, ' ');
    lemma_find_at(s, i4 + 1, ' ');
    lemma_find_at(s, i5 + 1, '"');
    match find_at(s, i5 + 1, '"') {
        None => {},
        Some(i6) => {
            if i6 + 1 >= s.len() {
            } else if s[i6 + 1] != ' ' {
            } else {
                lemma_find_at(s, i6 + 2, ' ');
                match find_at(s, i6 + 2, ' ') {
                    None => {},
                    Some(i7) => {},
                }
            }
        },
    }
}

} // verus!

verus! {

/// Text with every ANSI escape sequence removed: from each escape character
/// up to and including the next `m`, nothing survives.
pub open spec fn strip_colors(s: Seq<char>) -> Seq<char>
    decreases s.len(), 1int,
{
    if s.len() == 0 {
        Seq::<char>::empty()
    } else if s[0] == '\x1b' {
        strip_in_escape(s.drop_first())
    } else {
        seq![s[0]] + strip_colors(s.drop_first())
    }
}

/// The stripping state inside an escape sequence: discard until after `m`.
pub open spec fn strip_in_escape(s: Seq<char>) -> Seq<char>
    decreases s.len(), 0int,
{
    if s.len() == 0 {
        Seq::<char>::empty()
    } else if s[0] == 'm' {
        strip_colors(s.drop_first())
    } else {
        strip_in_escape(s.drop_first())
    }
}

/// No escape character anywhere in the text.
pub open spec fn no_esc(s: Seq<char>) -> bool {
    forall|i: int| 0 <= i < s.len() ==> s[i] != '\x1b'
}

/// Stripping passes escape-free text through unchanged.
pub proof fn lemma_strip_clean_prefix(a: Seq<char>, b: Seq<char>)
    requires
        no_esc(a),
    ensures
        strip_colors(a + b) =~= a + strip_colors(b),
    decreases a.len(),
{
    if a.len() == 0 {
        assert(a + b =~= b);
    } else {
        assert((a + b).drop_first() =~= a.drop_first() + b);
        lemma_strip_clean_prefix(a.drop_first(), b);
    }
}

/// Discarding runs to the first `m`: a block that ends with its only `m`
/// vanishes entirely, and stripping resumes after it.
proof fn lemma_strip_in_escape_block(c: Seq<char>, b: Seq<char>)
    requires
        c.len() >= 1,
        c.last() == 'm',
        forall|i: int| 0 <= i < c.len() - 1 ==> c[i] != 'm',
    ensures
        strip_in_escape(c + b) =~= strip_colors(b),
    decreases c.len(),
{
    if c.len() == 1 {
        assert((c + b).drop_first() =~= b);
    } else {
        assert((c + b).drop_first() =~= c.drop_first() + b);
        assert(c.drop_first().last() == 'm');
        lemma_strip_in_escape_block(c.drop_first(), b);
    }
}

/// A whole color sequence (escape character through its final `m`)
/// disappears under stripping.
pub proof fn lemma_strip_color_block(c: Seq<char>, b: Seq<char>)
    requires
        c.len() >= 2,
        c[0] == '\x1b',
        c.last() == 'm',
        forall|i: int| 1 <= i < c.len() - 1 ==> c[i] != 'm',
    ensures
        strip_colors(c + b) =~= strip_colors(b),
{
    assert((c + b).drop_first() =~= c.drop_first() + b);
    assert(c.drop_first().last() == 'm');
    lemma_strip_in_escape_block(c.drop_first(), b);
}

/// Whether each piece of a parse is free of escape characters.
pub open spec fn plv_no_esc(p: ParsedLineView) -> bool {
    &&& no_esc(p.head)
    &&& (p.head_date matches Some(x) ==> no_esc(x))
    &&& no_esc(p.date)
    &&& (p.date_method matches Some(x) ==> no_esc(x))
    &&& no_esc(p.method)
    &&& (p.method_url matches Some(x) ==> no_esc(x))
    &&& no_esc(p.url)
    &&& (p.url_lvl matches Some(x) ==> no_esc(x))
    &&& no_esc(p.protocollvl)
    &&& (p.lvl_statuscode matches Some(x) ==> no_esc(x))
    &&& no_esc(p.statuscode)
    &&& no_esc(p.tail)
}

/// Each inserted color is a well-formed block for [`lemma_strip_color_block`].
proof fn lemma_color_seqs_are_blocks()
    ensures
        terminal::white_seq()[0] == '\x1b' && terminal::white_seq().last() == 'm' && (forall|
            i: int,
        | 1 <= i < terminal::white_seq().len() - 1 ==> terminal::white_seq()[i] != 'm'),
        terminal::reset_seq()[0] == '\x1b' && terminal::reset_seq().last() == 'm' && (forall|
            i: int,
        | 1 <= i < terminal::reset_seq().len() - 1 ==> terminal::reset_seq()[i] != 'm'),
        terminal::green_seq()[0] == '\x1b' && terminal::green_seq().last() == 'm' && (forall|
            i: int,
        | 1 <= i < terminal::green_seq().len() - 1 ==> terminal::green_seq()[i] != 'm'),
        terminal::purple_seq()[0] == '\x1b' && terminal::purple_seq().last() == 'm' && (forall|
            i: int,
        | 1 <= i < terminal::purple_seq().len() - 1 ==> terminal::purple_seq()[i] != 'm'),
        terminal::yellow_seq()[0] == '\x1b' && terminal::yellow_seq().last() == 'm' && (forall|
            i: int,
        | 1 <= i < terminal::yellow_seq().len() - 1 ==> terminal::yellow_seq()[i] != 'm'),
        terminal::red_seq()[0] == '\x1b' && terminal::red_seq().last() == 'm' && (forall|
            i: int,
        | 1 <= i < terminal::red_seq().len() - 1 ==> terminal::red_seq()[i] != 'm'),
{
}

/// A colored piece `c0 + body + c1 + rest` strips to `body + strip(rest)`,
/// whether the color pair is a real block pair or empty on both sides.
proof fn lemma_strip_colored_piece(c0: Seq<char>, body: Seq<char>, c1: Seq<char>, rest: Seq<
    char,
>)
    requires
        no_esc(body),
        (c0.len() == 0 && c1.len() == 0) || {
            &&& c0.len() >= 2 && c0[0] == '\x1b' && c0.last() == 'm' && (forall|i: int|
                1 <= i < c0.len() - 1 ==> c0[i] != 'm')
            &&& c1.len() >= 2 && c1[0] == '\x1b' && c1.last() == 'm' && (forall|i: int|
                1 <= i < c1.len() - 1 ==> c1[i] != 'm')
        },
    ensures
        strip_colors(c0 + body + c1 + rest) =~= body + strip_colors(rest),
{
    if c0.len() == 0 && c1.len() == 0 {
        assert(c0 + body + c1 + rest =~= body + rest);
        lemma_strip_clean_prefix(body, rest);
    } else {
        assert(c0 + body + c1 + rest =~= c0 + (body + (c1 + rest)));
        lemma_strip_color_block(c0, body + (c1 + rest));
        lemma_strip_clean_prefix(body, c1 + rest);
        lemma_strip_color_block(c1, rest);
    }
}

/// Stripping the inserted colors out of a rendered parse leaves exactly the
/// plain reconstruction, as long as the parsed text itself carries no
/// escape characters.
#[verifier::rlimit(100)]
#[verifier::spinoff_prover]
pub proof fn lemma_strip_rendered(p: ParsedLineView)
    requires
        plv_no_esc(p),
    ensures
        strip_colors(rendered_text(p)) =~= plain_text(p),
{
    lemma_color_seqs_are_blocks();
    match p.head_date {
        None => {
            lemma_strip_clean_prefix(p.head + p.tail, Seq::<char>::empty());
            assert(p.head + p.tail + Seq::<char>::empty() =~= p.head + p.tail);
            assert(strip_colors(Seq::<char>::empty()) =~= Seq::<char>::empty());
            assert(rendered_text(p) =~= p.head + p.tail + Seq::<char>::empty());
            assert(plain_text(p) =~= p.head + p.tail + Seq::<char>::empty());
        },
        Some(hd) => {
            match p.date_method {
                None => {
                    let a = p.head + hd + p.date + p.tail;
                    lemma_strip_clean_prefix(a, Seq::<char>::empty());
                    assert(a + Seq::<char>::empty() =~= a);
                    assert(rendered_text(p) =~= a + Seq::<char>::empty());
                    assert(plain_text(p) =~= a + Seq::<char>::empty());
                },
                Some(dm) => {
                    let pre = p.head + hd + p.date + dm;
                    let mc = method_color_spec(p.method);
                    match p.method_url {
                        None => {
                            let rest = mc.0 + p.method + mc.1 + p.tail;
                            assert(rendered_text(p) =~= pre + rest);
                            lemma_strip_clean_prefix(pre, rest);
                            lemma_strip_colored_piece(mc.0, p.method, mc.1, p.tail);
                            lemma_strip_clean_prefix(p.tail, Seq::<char>::empty());
                            assert(p.tail + Seq::<char>::empty() =~= p.tail);
                            assert(strip_colors(p.tail) =~= p.tail);
                            assert(plain_text(p) =~= pre + (p.method + p.tail));
                        },
                        Some(mu) => {
                            match p.url_lvl {
                                None => {
                                    let mid = mu + p.url + p.tail;
                                    let rest = mc.0 + p.method + mc.1 + mid;
                                    assert(rendered_text(p) =~= pre + rest);
                                    lemma_strip_clean_prefix(pre, rest);
                                    lemma_strip_colored_piece(mc.0, p.method, mc.1, mid);
                                    lemma_strip_clean_prefix(mid, Seq::<char>::empty());
                                    assert(mid + Seq::<char>::empty() =~= mid);
                                    assert(strip_colors(mid) =~= mid);
                                    assert(plain_text(p) =~= pre + (p.method + mid));
                                },
                                Some(ul) => {
                                    match p.lvl_statuscode {
                                        None => {
                                            let mid = mu + p.url + ul + p.protocollvl + p.tail;
                                            let rest = mc.0 + p.method + mc.1 + mid;
                                            assert(rendered_text(p) =~= pre + rest);
                                            lemma_strip_clean_prefix(pre, rest);
                                            lemma_strip_colored_piece(mc.0, p.method, mc.1, mid);
                                            lemma_strip_clean_prefix(mid, Seq::<char>::empty());
                                            assert(mid + Seq::<char>::empty() =~= mid);
                                            assert(strip_colors(mid) =~= mid);
                                            assert(plain_text(p) =~= pre + (p.method + mid));
                                        },
                                        Some(ls) => {
                                            lemma_strip_rendered_full(p, hd, dm, mu, ul, ls);
                                        },
                                    }
                                },
                            }
                        },
                    }
                },
            }
        },
    }
}

} // verus!

verus! {

/// The stripping argument for a fully parsed line, where both the method
/// color and the status-code color are present.
#[verifier::rlimit(100)]
#[verifier::spinoff_prover]
proof fn lemma_strip_rendered_full(p: ParsedLineView, hd: Seq<char>, dm: Seq<char>, mu: Seq<
    char,
>, ul: Seq<char>, ls: Seq<char>)
    requires
        plv_no_esc(p),
        p.head_date == Some(hd),
        p.date_method == Some(dm),
        p.method_url == Some(mu),
        p.url_lvl == Some(ul),
        p.lvl_statuscode == Some(ls),
    ensures
        strip_colors(rendered_text(p)) =~= plain_text(p),
{
    lemma_color_seqs_are_blocks();
    let pre = p.head + hd + p.date + dm;
    let mc = method_color_spec(p.method);
    let sc = code_color_spec(p.statuscode);
    let mid = mu + p.url + ul + p.protocollvl + ls;
    let colored_code = sc.0 + p.statuscode + sc.1 + p.tail;
    let rest = mc.0 + p.method + mc.1 + (mid + colored_code);
    assert(rendered_text(p) =~= pre + rest);
    lemma_strip_clean_prefix(pre, rest);
    lemma_strip_colored_piece(mc.0, p.method, mc.1, mid + colored_code);
    lemma_strip_clean_prefix(mid, colored_code);
    lemma_strip_colored_piece(sc.0, p.statuscode, sc.1, p.tail);
    lemma_strip_clean_prefix(p.tail, Seq::<char>::empty());
    assert(p.tail + Seq::<char>::empty() =~= p.tail);
    assert(strip_colors(p.tail) =~= p.tail);
    assert(plain_text(p) =~= pre + (p.method + (mid + (p.statuscode + p.tail))));
}

} // verus!

verus! {

/// A parse of escape-free text is escape-free in every piece: each field is
/// a slice of the input and each separator is built from plain delimiter
/// characters.
pub proof fn lemma_parse_no_esc(s: Seq<char>)
    requires
        no_esc(s),
    ensures
        plv_no_esc(parse_line_spec(s)),
{
    lemma_find_at(s, 0, '[');
    match find_at(s, 0, '[') {
        None => {},
        Some(i1) => {
            lemma_find_at(s, i1 + 1, ']');
            match find_at(s, i1 + 1, ']') {
                None => {},
                Some(i2) => {
                    if i2 + 1 >= s.len() {
                    } else if s[i2 + 1] != ' ' {
                    } else {
                        lemma_find_at(s, i2 + 2, '"');
                        match find_at(s, i2 + 2, '"') {
                            None => {},
                            Some(i3) => {
                                lemma_find_at(s, i3 + 1, ' ');
                                match find_at(s, i3 + 1, ' ') {
                                    None => {},
                                    Some(i4) => {
                                        lemma_find_at(s, i4 + 1, ' ');
                                        match find_at(s, i4 + 1, ' ') {
                                            None => {},
                                            Some(i5) => {
                                                lemma_find_at(s, i5 + 1, '"');
                                                match find_at(s, i5 + 1, '"') {
                                                    None => {},
                                                    Some(i6) => {
                                                        if i6 + 1 < s.len() && s[i6 + 1]
                                                            == ' ' {
                                                            lemma_find_at(s, i6 + 2, ' ');
                                                        }
                                                    },
                                                }
                                            },
                                        }
                                    },
                                }
                            },
                        }
                    }
                },
            }
        },
    }
}

/// Round trip: render a parsed line, strip the inserted colors, and the
/// original text comes back exactly — for any input without its own escape
/// characters. (A line that already carries escape sequences would lose
/// them to the stripping, so those inputs are excluded.)
pub proof fn lemma_render_round_trip(s: Seq<char>)
    requires
        no_esc(s),
    ensures
        strip_colors(rendered_text(parse_line_spec(s))) =~= s,
{
    lemma_parse_no_esc(s);
    lemma_strip_rendered(parse_line_spec(s));
    lemma_parse_reconstructs(s);
}

} // verus!
