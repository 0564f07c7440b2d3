//! The grammar of host expressions and of plain host names, read from text.
//!
//! An expression is a list of entries with commas between them; blanks may follow
//! a comma. An entry starts with name characters, which any number of bracket
//! groups and further name characters follow. A bracket group holds numbers and
//! ranges `a-b` of numbers with commas between them.

use vstd::prelude::*;
use vstd::string::*;
use vstd::utf8::is_ascii_chars;
use crate::error::Error;
use crate::text::{decimal_value, digit_value, is_digit};
use crate::token::{token_parts, Part, Token};

verus! {

/// Whether `c` may stand in the literal text of a host name: an ASCII letter or
/// digit, a hyphen, a dot or an underscore.
pub open spec fn is_name_char(c: char) -> bool {
    ('a' <= c <= 'z') || ('A' <= c <= 'Z') || is_digit(c) || c == '-' || c == '.' || c == '_'
}

/// Whether `c` is a blank: a space or a tab.
pub open spec fn is_blank(c: char) -> bool {
    c == ' ' || c == '\t'
}

/// Where the run of digits that starts at `i` ends.
pub open spec fn digits_end(s: Seq<char>, i: int) -> int
    decreases s.len() - i,
{
    if 0 <= i < s.len() && is_digit(s[i]) {
        digits_end(s, i + 1)
    } else {
        i
    }
}

/// Where the run of name characters that starts at `i` ends.
pub open spec fn name_end(s: Seq<char>, i: int) -> int
    decreases s.len() - i,
{
    if 0 <= i < s.len() && is_name_char(s[i]) {
        name_end(s, i + 1)
    } else {
        i
    }
}

/// Where the run of blanks that starts at `i` ends.
pub open spec fn blanks_end(s: Seq<char>, i: int) -> int
    decreases s.len() - i,
{
    if 0 <= i < s.len() && is_blank(s[i]) {
        blanks_end(s, i + 1)
    } else {
        i
    }
}

/// The number written at `i` and where it ends: a run of at least one digit
/// whose value a 32-bit number can hold.
pub open spec fn number_at(s: Seq<char>, i: int) -> Option<(u32, int)> {
    let j = digits_end(s, i);
    if i < j && decimal_value(s.subrange(i, j)) <= u32::MAX {
        Some((decimal_value(s.subrange(i, j)) as u32, j))
    } else {
        None
    }
}

/// The bounds written at `i` and where they end: a number `a`, which stands for
/// `a-a`, or two numbers with a hyphen between them.
pub open spec fn item_at(s: Seq<char>, i: int) -> Option<((u32, u32), int)> {
    match number_at(s, i) {
        None => None,
        Some((a, j)) => if j < s.len() && s[j] == '-' {
            match number_at(s, j + 1) {
                None => None,
                Some((b, k)) => Some(((a, b), k)),
            }
        } else {
            Some(((a, a), j))
        },
    }
}

/// The bounds of a bracket group from `i` on, after those in `acc`, and where
/// the group ends: items with commas between them, then a closing bracket.
pub open spec fn items_from(s: Seq<char>, i: int, acc: Seq<(u32, u32)>) -> Option<
    (Seq<(u32, u32)>, int),
>
    decreases s.len() - i,
{
    match item_at(s, i) {
        None => None,
        Some((p, j)) => if i < j < s.len() && s[j] == ',' {
            items_from(s, j + 1, acc.push(p))
        } else if j < s.len() && s[j] == ']' {
            Some((acc.push(p), j + 1))
        } else {
            None
        },
    }
}

/// The pieces of an entry from `i` on, after those in `acc`, and where the entry
/// ends: at a comma or at the end of the text.
pub open spec fn pieces_from(s: Seq<char>, i: int, acc: Seq<Part>) -> Option<(Seq<Part>, int)>
    decreases s.len() - i,
{
    if i < 0 {
        None
    } else if i >= s.len() || s[i] == ',' {
        Some((acc, i))
    } else if s[i] == '[' {
        match items_from(s, i + 1, Seq::empty()) {
            None => None,
            Some((pairs, j)) => if i < j <= s.len() {
                pieces_from(s, j, acc.push(Part::Numbers(pairs)))
            } else {
                None
            },
        }
    } else if is_name_char(s[i]) {
        let j = name_end(s, i);
        if i < j <= s.len() {
            pieces_from(s, j, acc.push(Part::Text(s.subrange(i, j))))
        } else {
            None
        }
    } else {
        None
    }
}

/// The entry that starts at `i`, which name characters must begin, and where it
/// ends.
pub open spec fn entry_at(s: Seq<char>, i: int) -> Option<(Seq<Part>, int)> {
    if 0 <= i < s.len() && is_name_char(s[i]) {
        pieces_from(s, i, Seq::empty())
    } else {
        None
    }
}

/// The entries from `i` on, after those in `acc`.
pub open spec fn entries_from(s: Seq<char>, i: int, acc: Seq<Seq<Part>>) -> Option<Seq<Seq<Part>>>
    decreases s.len() - i,
{
    match entry_at(s, i) {
        None => None,
        Some((e, j)) => if j >= s.len() {
            Some(acc.push(e))
        } else if i < j && s[j] == ',' && j < blanks_end(s, j + 1) <= s.len() {
            entries_from(s, blanks_end(s, j + 1), acc.push(e))
        } else {
            None
        },
    }
}

/// The entries that an expression is made of, each as its pieces; `None` where
/// the text does not follow the grammar. The empty text has no entries.
pub open spec fn parse_expression(s: Seq<char>) -> Option<Seq<Seq<Part>>> {
    if !is_ascii_chars(s) {
        None
    } else if s.len() == 0 {
        Some(Seq::empty())
    } else {
        entries_from(s, 0, Seq::empty())
    }
}

/// Where the digits at the end of `s` start; the length of `s` where it ends in
/// no digit.
pub open spec fn suffix_start(s: Seq<char>) -> int
    decreases s.len(),
{
    if s.len() > 0 && is_digit(s.last()) {
        suffix_start(s.drop_last())
    } else {
        s.len() as int
    }
}

/// Whether `s` is a plain host name: at least one character, and name
/// characters only.
pub open spec fn is_hostname(s: Seq<char>) -> bool {
    s.len() > 0 && forall|i: int| 0 <= i < s.len() ==> is_name_char(#[trigger] s[i])
}

/// The text of a host name before the digits at its end.
pub open spec fn hostname_prefix(s: Seq<char>) -> Seq<char> {
    s.subrange(0, suffix_start(s))
}

/// The number that the digits at the end of a host name write, where there are
/// any.
pub open spec fn hostname_suffix(s: Seq<char>) -> Option<nat> {
    if suffix_start(s) < s.len() {
        Some(decimal_value(s.subrange(suffix_start(s), s.len() as int)))
    } else {
        None
    }
}

/// Whether `t` is text as it stands in a name: not empty, and of name
/// characters only.
pub open spec fn is_name_text(t: Seq<char>) -> bool {
    t.len() > 0 && forall|k: int| 0 <= k < t.len() ==> is_name_char(#[trigger] t[k])
}

/// Whether the piece is as it is read from an expression: text as it stands in
/// a name, or the bounds of at least one range.
pub open spec fn is_read_part(p: Part) -> bool {
    match p {
        Part::Text(t) => is_name_text(t),
        Part::Numbers(pairs) => pairs.len() > 0,
    }
}

/// No text follows a text: what is read as text is read as one text.
pub open spec fn no_text_twice(ps: Seq<Part>) -> bool {
    forall|k: int| 0 <= k < ps.len() - 1 ==> !((#[trigger] ps[k]) is Text && ps[k + 1] is Text)
}

/// Whether the pieces are an entry as it is read from an expression: text at
/// the start, then sets of numbers and texts.
pub open spec fn is_read_entry(e: Seq<Part>) -> bool {
    &&& e.len() > 0
    &&& e[0] is Text
    &&& forall|k: int| 0 <= k < e.len() ==> is_read_part(#[trigger] e[k])
    &&& no_text_twice(e)
}

/// The texts of the token lists, list by list.
pub open spec fn entry_parts(entries: Seq<Vec<Token>>) -> Seq<Seq<Part>> {
    Seq::new(entries.len(), |i: int| token_parts(entries[i]@))
}

/// The digits at the end of a text start within the text.
pub proof fn lemma_suffix_start_bounds(s: Seq<char>)
    ensures
        0 <= suffix_start(s) <= s.len(),
    decreases s.len(),
{
    if s.len() > 0 && is_digit(s.last()) {
        lemma_suffix_start_bounds(s.drop_last());
    }
}

/// Whether the byte of an ASCII character is that of a digit.
fn is_digit_byte(b: u8, Ghost(c): Ghost<char>) -> (r: bool)
    requires
        c as u8 == b,
        c <= '\u{7f}',
    ensures
        r == is_digit(c),
        r ==> digit_value(c) == b - 48,
{
    b >= 48 && b <= 57
}

/// Whether the byte of an ASCII character is that of a name character.
fn is_name_byte(b: u8, Ghost(c): Ghost<char>) -> (r: bool)
    requires
        c as u8 == b,
        c <= '\u{7f}',
    ensures
        r == is_name_char(c),
{
    (b >= 97 && b <= 122) || (b >= 65 && b <= 90) || (b >= 48 && b <= 57) || b == 45 || b == 46
        || b == 95
}

/// Reads the number at `i`.
fn read_number(text: &str, n: usize, i: usize) -> (res: Option<(u32, usize)>)
    requires
        is_ascii(text),
        n == text@.len(),
        i <= n,
    ensures
        match res {
            Some((v, j)) => number_at(text@, i as int) == Some((v, j as int)) && i < j <= n,
            None => number_at(text@, i as int) is None,
        },
{
    let ghost s = text@;
    let mut j: usize = i;
    let mut acc: u64 = 0;
    let mut over = false;
    let mut go = true;
    proof {
        assert(s.subrange(i as int, i as int) =~= Seq::<char>::empty());
    }
    while go && j < n
        invariant
            is_ascii(text),
            s == text@,
            n == s.len(),
            i <= j <= n,
            digits_end(s, i as int) == digits_end(s, j as int),
            !over ==> acc == decimal_value(s.subrange(i as int, j as int)) && acc <= u32::MAX,
            over ==> decimal_value(s.subrange(i as int, j as int)) > u32::MAX,
            !go ==> j >= n || !is_digit(s[j as int]),
        decreases n - j, go as int,
    {
        let b = text.get_ascii(j);
        if is_digit_byte(b, Ghost(s[j as int])) {
            proof {
                let t = s.subrange(i as int, j + 1);
                assert(t.drop_last() =~= s.subrange(i as int, j as int));
                assert(t.last() == s[j as int]);
            }
            if !over {
                acc = acc * 10 + (b - 48) as u64;
                if acc > u32::MAX as u64 {
                    over = true;
                }
            }
            j = j + 1;
        } else {
            go = false;
        }
    }
    if j == i || over {
        None
    } else {
        Some((acc as u32, j))
    }
}

/// Reads the bounds at `i`.
fn read_item(text: &str, n: usize, i: usize) -> (res: Option<((u32, u32), usize)>)
    requires
        is_ascii(text),
        n == text@.len(),
        i <= n,
    ensures
        match res {
            Some((p, j)) => item_at(text@, i as int) == Some((p, j as int)) && i < j <= n,
            None => item_at(text@, i as int) is None,
        },
{
    match read_number(text, n, i) {
        None => None,
        Some((a, j)) => {
            if j < n && text.get_ascii(j) == 45 {
                match read_number(text, n, j + 1) {
                    None => None,
                    Some((b, k)) => Some(((a, b), k)),
                }
            } else {
                Some(((a, a), j))
            }
        },
    }
}

/// Reads the inside of a bracket group, which starts at `i`, and its closing
/// bracket.
fn read_items(text: &str, n: usize, i: usize) -> (res: Option<(Vec<(u32, u32)>, usize)>)
    requires
        is_ascii(text),
        n == text@.len(),
        i <= n,
    ensures
        match res {
            Some((pairs, j)) => items_from(text@, i as int, Seq::empty()) == Some(
                (pairs@, j as int),
            ) && i < j <= n && pairs@.len() > 0,
            None => items_from(text@, i as int, Seq::empty()) is None,
        },
{
    let ghost s = text@;
    let mut pairs: Vec<(u32, u32)> = Vec::new();
    let mut cur: usize = i;
    loop
        invariant
            is_ascii(text),
            s == text@,
            n == s.len(),
            i <= cur <= n,
            items_from(s, i as int, Seq::empty()) == items_from(s, cur as int, pairs@),
        decreases n - cur,
    {
        match read_item(text, n, cur) {
            None => {
                return None;
            },
            Some((p, j)) => {
                pairs.push(p);
                if j < n && text.get_ascii(j) == 44 {
                    cur = j + 1;
                } else if j < n && text.get_ascii(j) == 93 {
                    return Some((pairs, j + 1));
                } else {
                    return None;
                }
            },
        }
    }
}

/// What holds of the pieces read so far holds of them with one more piece, where
/// that piece is no text after a text.
proof fn lemma_read_push(ps: Seq<Part>, p: Part)
    requires
        forall|k: int| 0 <= k < ps.len() ==> is_read_part(#[trigger] ps[k]),
        no_text_twice(ps),
        is_read_part(p),
        ps.len() > 0 && ps.last() is Text ==> !(p is Text),
    ensures
        forall|k: int| 0 <= k < ps.push(p).len() ==> is_read_part(#[trigger] ps.push(p)[k]),
        no_text_twice(ps.push(p)),
        ps.push(p).last() == p,
        ps.len() > 0 ==> ps.push(p)[0] == ps[0],
{
    let q = ps.push(p);
    assert forall|k: int| 0 <= k < q.len() implies is_read_part(#[trigger] q[k]) by {
        if k < ps.len() {
            assert(q[k] == ps[k]);
        }
    }
    assert forall|k: int| 0 <= k < q.len() - 1 implies !((#[trigger] q[k]) is Text && q[k + 1] is Text) by {
        assert(q[k] == ps[k]);
        if k + 1 < ps.len() {
            assert(q[k + 1] == ps[k + 1]);
        } else {
            assert(ps.last() == ps[k]);
        }
    }
}

/// Reads the entry that starts at `i`.
fn read_entry(text: &str, n: usize, i: usize) -> (res: Option<(Vec<Token>, usize)>)
    requires
        is_ascii(text),
        n == text@.len(),
        i <= n,
    ensures
        match res {
            Some((tokens, j)) => entry_at(text@, i as int) == Some(
                (token_parts(tokens@), j as int),
            ) && i < j <= n && (j == n || text@[j as int] == ',') && is_read_entry(
                token_parts(tokens@),
            ),
            None => entry_at(text@, i as int) is None,
        },
{
    let ghost s = text@;
    if i >= n || !is_name_byte(text.get_ascii(i), Ghost(s[i as int])) {
        return None;
    }
    let mut tokens: Vec<Token> = Vec::new();
    let mut cur: usize = i;
    proof {
        assert(token_parts(tokens@) =~= Seq::<Part>::empty());
    }
    loop
        invariant
            is_ascii(text),
            s == text@,
            n == s.len(),
            i <= cur <= n,
            i < n,
            cur == i ==> is_name_char(s[i as int]),
            entry_at(s, i as int) == pieces_from(s, cur as int, token_parts(tokens@)),
            (tokens.len() == 0) == (cur == i),
            tokens.len() > 0 ==> token_parts(tokens@)[0] is Text,
            forall|k: int| 0 <= k < tokens.len() ==> is_read_part(#[trigger] token_parts(tokens@)[k]),
            no_text_twice(token_parts(tokens@)),
            tokens.len() > 0 && token_parts(tokens@).last() is Text ==> cur >= n || !is_name_char(
                s[cur as int],
            ),
        decreases n - cur,
    {
        if cur >= n {
            return Some((tokens, cur));
        }
        let b = text.get_ascii(cur);
        let ghost before = token_parts(tokens@);
        if b == 44 {
            return Some((tokens, cur));
        } else if b == 91 {
            match read_items(text, n, cur + 1) {
                None => {
                    return None;
                },
                Some((pairs, j)) => {
                    tokens.push(Token::Range(pairs));
                    proof {
                        assert(token_parts(tokens@) =~= before.push(Part::Numbers(pairs@)));
                        lemma_read_push(before, Part::Numbers(pairs@));
                    }
                    cur = j;
                },
            }
        } else if is_name_byte(b, Ghost(s[cur as int])) {
            let mut j: usize = cur + 1;
            while j < n && is_name_byte(text.get_ascii(j), Ghost(s[j as int]))
                invariant
                    is_ascii(text),
                    s == text@,
                    n == s.len(),
                    cur < j <= n,
                    name_end(s, cur as int) == name_end(s, j as int),
                    forall|m: int| cur <= m < j ==> is_name_char(#[trigger] s[m]),
                decreases n - j,
            {
                j = j + 1;
            }
            let piece = text.substring_ascii(cur, j);
            tokens.push(Token::Static(String::from_str(piece)));
            proof {
                let t = s.subrange(cur as int, j as int);
                assert(token_parts(tokens@) =~= before.push(Part::Text(t)));
                assert(is_name_text(t)) by {
                    assert forall|k: int| 0 <= k < t.len() implies is_name_char(#[trigger] t[k]) by {
                        assert(t[k] == s[cur + k]);
                    }
                }
                lemma_read_push(before, Part::Text(t));
            }
            cur = j;
        } else {
            return None;
        }
    }
}

/// The reader of host expressions and of plain host names.
pub struct HostlistParser;

impl HostlistParser {
    /// Reads an expression into its entries, each a list of tokens.
    pub fn parse_hostlist(expr: &str) -> (res: Result<Vec<Vec<Token>>, Error>)
        ensures
            match res {
                Ok(entries) => parse_expression(expr@) == Some(entry_parts(entries@)) && forall|
                    k: int,
                |
                    0 <= k < entries@.len() ==> is_read_entry(#[trigger] entry_parts(entries@)[k]),
                Err(e) => parse_expression(expr@) is None && (e matches Error::ParseError(t) && t@
                    == expr@),
            },
    {
        let ghost s = expr@;
        let mut entries: Vec<Vec<Token>> = Vec::new();
        if !expr.is_ascii() {
            return Err(Error::ParseError(String::from_str(expr)));
        }
        let n = expr.unicode_len();
        if n == 0 {
            proof {
                assert(entry_parts(entries@) =~= Seq::<Seq<Part>>::empty());
            }
            return Ok(entries);
        }
        let mut cur: usize = 0;
        proof {
            assert(entry_parts(entries@) =~= Seq::<Seq<Part>>::empty());
        }
        loop
            invariant
                is_ascii(expr),
                s == expr@,
                n == s.len(),
                n > 0,
                cur <= n,
                parse_expression(s) == entries_from(s, cur as int, entry_parts(entries@)),
                forall|k: int|
                    0 <= k < entries@.len() ==> is_read_entry(#[trigger] entry_parts(entries@)[k]),
            decreases n - cur,
        {
            let ghost before = entry_parts(entries@);
            match read_entry(expr, n, cur) {
                None => {
                    return Err(Error::ParseError(String::from_str(expr)));
                },
                Some((tokens, j)) => {
                    let ghost parts = token_parts(tokens@);
                    entries.push(tokens);
                    proof {
                        assert(entry_parts(entries@) =~= before.push(parts));
                        assert forall|k: int| 0 <= k < entries@.len() implies is_read_entry(
                            #[trigger] entry_parts(entries@)[k],
                        ) by {
                            if k < before.len() {
                                assert(entry_parts(entries@)[k] == before[k]);
                            }
                        }
                    }
                    if j >= n {
                        return Ok(entries);
                    }
                    let mut k: usize = j + 1;
                    while k < n && (expr.get_ascii(k) == 32 || expr.get_ascii(k) == 9)
                        invariant
                            is_ascii(expr),
                            s == expr@,
                            n == s.len(),
                            j < k <= n,
                            blanks_end(s, j + 1) == blanks_end(s, k as int),
                        decreases n - k,
                    {
                        k = k + 1;
                    }
                    cur = k;
                },
            }
        }
    }

    /// Splits a plain host name into the text before the digits at its end and
    /// the number that those digits write.
    pub fn parse_simple_hostname(host: &str) -> (res: Result<(String, Option<u32>), Error>)
        ensures
            match res {
                Ok((prefix, suffix)) => is_ascii_chars(host@) && is_hostname(host@) && prefix@
                    == hostname_prefix(host@) && match suffix {
                    Some(v) => hostname_suffix(host@) == Some(v as nat),
                    None => hostname_suffix(host@) is None,
                },
                Err(Error::InvalidHostname(t)) => t@ == host@ && !(is_ascii_chars(host@)
                    && is_hostname(host@)),
                Err(Error::ParseError(t)) => t@ == host@ && is_ascii_chars(host@) && is_hostname(
                    host@,
                ) && (hostname_suffix(host@) matches Some(v) && v > u32::MAX),
                Err(_) => false,
            },
    {
        let ghost s = host@;
        if !host.is_ascii() {
            return Err(Error::InvalidHostname(String::from_str(host)));
        }
        let n = host.unicode_len();
        if n == 0 {
            return Err(Error::InvalidHostname(String::from_str(host)));
        }
        // every character must be a name character
        let mut i: usize = 0;
        while i < n
            invariant
                is_ascii(host),
                s == host@,
                n == s.len(),
                i <= n,
                forall|k: int| 0 <= k < i ==> is_name_char(#[trigger] s[k]),
            decreases n - i,
        {
            if !is_name_byte(host.get_ascii(i), Ghost(s[i as int])) {
                return Err(Error::InvalidHostname(String::from_str(host)));
            }
            i = i + 1;
        }
        // the digits at the end
        let mut k: usize = n;
        proof {
            assert(s.take(n as int) =~= s);
        }
        while k > 0 && is_digit_byte(host.get_ascii(k - 1), Ghost(s[k - 1]))
            invariant
                is_ascii(host),
                s == host@,
                n == s.len(),
                k <= n,
                suffix_start(s) == suffix_start(s.take(k as int)),
                forall|m: int| k <= m < n ==> is_digit(#[trigger] s[m]),
            decreases k,
        {
            proof {
                let t = s.take(k as int);
                assert(t.last() == s[k - 1]);
                assert(t.drop_last() =~= s.take(k - 1));
            }
            k = k - 1;
        }
        proof {
            let t = s.take(k as int);
            if k > 0 {
                assert(t.last() == s[k - 1]);
            }
            assert(suffix_start(s) == k);
            lemma_digits_run(s, k as int, n as int);
        }
        let prefix = String::from_str(host.substring_ascii(0, k));
        if k == n {
            return Ok((prefix, None));
        }
        match read_number(host, n, k) {
            Some((v, _)) => Ok((prefix, Some(v))),
            None => Err(Error::ParseError(String::from_str(host))),
        }
    }
}

/// A stretch of digits that reaches the end of the text is the run of digits
/// from its start.
proof fn lemma_digits_run(s: Seq<char>, k: int, n: int)
    requires
        0 <= k <= n,
        n == s.len(),
        forall|m: int| k <= m < n ==> is_digit(#[trigger] s[m]),
    ensures
        digits_end(s, k) == n,
    decreases n - k,
{
    if k < n {
        lemma_digits_run(s, k + 1, n);
    }
}

} // verus!
