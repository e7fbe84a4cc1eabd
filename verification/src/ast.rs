//! Lightweight AST facts used by the bundler pipeline.
//!
//! This is intentionally smaller than a full JavaScript parser, but it gives
//! the resolver and transformer a shared structured view of imports, exports,
//! environment reads, JSX, decorators, and TypeScript-only syntax instead of
//! duplicating ad hoc line scans in each stage.
//!
//! The scanner works over the characters of the source. Every classification
//! it makes looks only at ASCII characters, so scanning characters reaches the
//! same decisions as scanning the UTF-8 bytes would. Positions below are
//! character indices; `b` in a specification is always the source cut off at
//! the end of the range being scanned, which is what keeps a scan of a
//! template interpolation from reading past its own closing brace.

use vstd::prelude::*;

use crate::text::{chars_to_string, str_chars};

verus! {

// ─── Character classes ───────────────────────────────────────────────────────

/// ASCII whitespace as `u8::is_ascii_whitespace` defines it.
pub open spec fn is_ws(c: char) -> bool {
    c == ' ' || c == '\t' || c == '\n' || c == '\x0C' || c == '\r'
}

pub open spec fn is_alpha(c: char) -> bool {
    (65 <= (c as u32) <= 90) || (97 <= (c as u32) <= 122)
}

pub open spec fn is_digit(c: char) -> bool {
    48 <= (c as u32) <= 57
}

pub open spec fn is_ident_start(c: char) -> bool {
    is_alpha(c) || c == '_' || c == '$'
}

pub open spec fn is_ident_continue(c: char) -> bool {
    is_ident_start(c) || is_digit(c)
}

pub open spec fn is_quote(c: char) -> bool {
    c == '"' || c == '\'' || c == '`'
}

fn ws_char(c: char) -> (r: bool)
    ensures
        r == is_ws(c),
{
    c == ' ' || c == '\t' || c == '\n' || c == '\x0C' || c == '\r'
}

fn alpha_char(c: char) -> (r: bool)
    ensures
        r == is_alpha(c),
{
    let n = c as u32;
    (65 <= n && n <= 90) || (97 <= n && n <= 122)
}

fn ident_start_char(c: char) -> (r: bool)
    ensures
        r == is_ident_start(c),
{
    alpha_char(c) || c == '_' || c == '$'
}

fn ident_continue_char(c: char) -> (r: bool)
    ensures
        r == is_ident_continue(c),
{
    let n = c as u32;
    ident_start_char(c) || (48 <= n && n <= 57)
}

fn quote_char(c: char) -> (r: bool)
    ensures
        r == is_quote(c),
{
    c == '"' || c == '\'' || c == '`'
}

/// The scanned range: the first `end` characters of `v`.
pub open spec fn bound(v: Seq<char>, end: int) -> Seq<char> {
    v.subrange(0, end)
}

/// Size limit that keeps every position arithmetic below in range.
pub open spec fn fits(n: int) -> bool {
    n + 8 <= usize::MAX
}

// ─── Identifiers, whitespace, comments ──────────────────────────────────────

/// Index just past the identifier characters starting at `i`.
pub open spec fn ident_end(b: Seq<char>, i: int) -> int
    decreases b.len() - i,
{
    if 0 <= i < b.len() && is_ident_continue(b[i]) {
        ident_end(b, i + 1)
    } else {
        i
    }
}

pub proof fn lemma_ident_end(b: Seq<char>, i: int)
    requires
        0 <= i,
    ensures
        i <= ident_end(b, i),
        i <= b.len() ==> ident_end(b, i) <= b.len(),
        forall|k: int| i <= k < ident_end(b, i) ==> is_ident_continue(#[trigger] b[k]),
    decreases b.len() - i,
{
    if 0 <= i < b.len() && is_ident_continue(b[i]) {
        lemma_ident_end(b, i + 1);
    }
}

fn skip_identifier(v: &Vec<char>, end: usize, i: usize) -> (r: usize)
    requires
        end <= v.len(),
        i <= end,
    ensures
        r == ident_end(bound(v@, end as int), i as int),
        i <= r <= end,
{
    let ghost b = bound(v@, end as int);
    proof {
        lemma_ident_end(b, i as int);
    }
    let mut j = i;
    while j < end && ident_continue_char(v[j])
        invariant
            i <= j <= end <= v.len(),
            b == bound(v@, end as int),
            ident_end(b, i as int) == ident_end(b, j as int),
        decreases end - j,
    {
        j += 1;
    }
    j
}

/// Whether a comment (`//` or `/*`) starts at `i`.
pub open spec fn is_comment_start(b: Seq<char>, i: int) -> bool {
    0 <= i && i + 1 < b.len() && b[i] == '/' && (b[i + 1] == '/' || b[i + 1] == '*')
}

/// Index just past the newline ending a line comment whose text starts at `j`.
pub open spec fn line_comment_end(b: Seq<char>, j: int) -> int
    decreases b.len() - j,
{
    if j < 0 || j >= b.len() {
        b.len() as int
    } else if b[j] == '\n' {
        j + 1
    } else {
        line_comment_end(b, j + 1)
    }
}

/// Index just past the `*/` closing a block comment whose text starts at `j`.
pub open spec fn block_comment_end(b: Seq<char>, j: int) -> int
    decreases b.len() - j,
{
    if j < 0 || j + 1 >= b.len() {
        b.len() as int
    } else if b[j] == '*' && b[j + 1] == '/' {
        j + 2
    } else {
        block_comment_end(b, j + 1)
    }
}

/// Index just past the comment starting at `start`.
pub open spec fn comment_end(b: Seq<char>, start: int) -> int {
    if b[start + 1] == '/' {
        line_comment_end(b, start + 2)
    } else {
        block_comment_end(b, start + 2)
    }
}

pub proof fn lemma_line_comment_end(b: Seq<char>, j: int)
    requires
        0 <= j <= b.len(),
    ensures
        j <= line_comment_end(b, j) <= b.len(),
    decreases b.len() - j,
{
    if j < b.len() && b[j] != '\n' {
        lemma_line_comment_end(b, j + 1);
    }
}

pub proof fn lemma_block_comment_end(b: Seq<char>, j: int)
    requires
        0 <= j <= b.len(),
    ensures
        j <= block_comment_end(b, j) <= b.len(),
    decreases b.len() - j,
{
    if j + 1 < b.len() && !(b[j] == '*' && b[j + 1] == '/') {
        lemma_block_comment_end(b, j + 1);
    }
}

pub proof fn lemma_comment_end(b: Seq<char>, start: int)
    requires
        is_comment_start(b, start),
    ensures
        start + 2 <= comment_end(b, start) <= b.len(),
{
    if b[start + 1] == '/' {
        lemma_line_comment_end(b, start + 2);
    } else {
        lemma_block_comment_end(b, start + 2);
    }
}

fn comment_start_at(v: &Vec<char>, end: usize, i: usize) -> (r: bool)
    requires
        end <= v.len(),
    ensures
        r == is_comment_start(bound(v@, end as int), i as int),
{
    i < end && end - i >= 2 && v[i] == '/' && (v[i + 1] == '/' || v[i + 1] == '*')
}

fn skip_comment(v: &Vec<char>, end: usize, start: usize) -> (r: usize)
    requires
        end <= v.len(),
        is_comment_start(bound(v@, end as int), start as int),
    ensures
        r == comment_end(bound(v@, end as int), start as int),
        start + 2 <= r <= end,
{
    let ghost b = bound(v@, end as int);
    proof {
        lemma_comment_end(b, start as int);
    }
    if v[start + 1] == '/' {
        let mut j = start + 2;
        while j < end && v[j] != '\n'
            invariant
                start + 2 <= j <= end <= v.len(),
                b == bound(v@, end as int),
                line_comment_end(b, start + 2) == line_comment_end(b, j as int),
            decreases end - j,
        {
            j += 1;
        }
        if j < end {
            j + 1
        } else {
            end
        }
    } else {
        let mut j = start + 2;
        while end - j > 1 && !(v[j] == '*' && v[j + 1] == '/')
            invariant
                start + 2 <= j <= end <= v.len(),
                b == bound(v@, end as int),
                block_comment_end(b, start + 2) == block_comment_end(b, j as int),
            decreases end - j,
        {
            j += 1;
        }
        if end - j > 1 {
            j + 2
        } else {
            end
        }
    }
}

/// Index of the first non-whitespace character at or after `i`.
pub open spec fn ws_end(b: Seq<char>, i: int) -> int
    decreases b.len() - i,
{
    if 0 <= i < b.len() && is_ws(b[i]) {
        ws_end(b, i + 1)
    } else {
        i
    }
}

pub proof fn lemma_ws_end(b: Seq<char>, i: int)
    requires
        0 <= i,
    ensures
        i <= ws_end(b, i),
        i <= b.len() ==> ws_end(b, i) <= b.len(),
    decreases b.len() - i,
{
    if 0 <= i < b.len() && is_ws(b[i]) {
        lemma_ws_end(b, i + 1);
    }
}

/// Index of the first character at or after `i` that is neither whitespace
/// nor inside a comment.
pub open spec fn skip_trivia(b: Seq<char>, i: int) -> int
    decreases b.len() + 1 - i,
{
    if i < 0 {
        i
    } else {
        let j = ws_end(b, i);
        if is_comment_start(b, j) {
            proof {
                lemma_ws_end(b, i);
                lemma_comment_end(b, j);
            }
            skip_trivia(b, comment_end(b, j))
        } else {
            j
        }
    }
}

pub proof fn lemma_skip_trivia(b: Seq<char>, i: int)
    requires
        0 <= i,
    ensures
        i <= skip_trivia(b, i),
        i <= b.len() ==> skip_trivia(b, i) <= b.len(),
    decreases b.len() + 1 - i,
{
    lemma_ws_end(b, i);
    let j = ws_end(b, i);
    if is_comment_start(b, j) {
        lemma_comment_end(b, j);
        lemma_skip_trivia(b, comment_end(b, j));
    }
}

fn skip_whitespace_and_comments(v: &Vec<char>, end: usize, i: usize) -> (r: usize)
    requires
        end <= v.len(),
        i <= end,
    ensures
        r == skip_trivia(bound(v@, end as int), i as int),
        i <= r <= end,
{
    let ghost b = bound(v@, end as int);
    let mut j = i;
    proof {
        lemma_skip_trivia(b, i as int);
    }
    loop
        invariant
            i <= j <= end <= v.len(),
            b == bound(v@, end as int),
            skip_trivia(b, i as int) == skip_trivia(b, j as int),
        decreases end - j,
    {
        let ghost j0 = j;
        while j < end && ws_char(v[j])
            invariant
                j0 <= j <= end <= v.len(),
                b == bound(v@, end as int),
                ws_end(b, j0 as int) == ws_end(b, j as int),
            decreases end - j,
        {
            j += 1;
        }
        if comment_start_at(v, end, j) {
            let k = skip_comment(v, end, j);
            proof {
                lemma_ws_end(b, j0 as int);
            }
            j = k;
        } else {
            return j;
        }
    }
}

// ─── Strings and quoted values ───────────────────────────────────────────────

/// Index just past the closing `quote` of a string whose body starts at `i`.
pub open spec fn string_end(b: Seq<char>, quote: char, i: int) -> int
    decreases b.len() + 1 - i,
{
    if i < 0 || i >= b.len() {
        b.len() as int
    } else if b[i] == '\\' {
        string_end(b, quote, i + 2)
    } else if b[i] == quote {
        i + 1
    } else {
        string_end(b, quote, i + 1)
    }
}

pub proof fn lemma_string_end(b: Seq<char>, quote: char, i: int)
    requires
        0 <= i <= b.len() + 1,
    ensures
        i <= b.len() ==> i <= string_end(b, quote, i) <= b.len(),
        string_end(b, quote, i) <= b.len(),
    decreases b.len() + 1 - i,
{
    if 0 <= i < b.len() {
        if b[i] == '\\' {
            lemma_string_end(b, quote, i + 2);
        } else if b[i] != quote {
            lemma_string_end(b, quote, i + 1);
        }
    }
}

fn skip_string(v: &Vec<char>, end: usize, start: usize) -> (r: usize)
    requires
        end <= v.len(),
        start < end,
        fits(end as int),
    ensures
        r == string_end(bound(v@, end as int), v@[start as int], start + 1),
        start + 1 <= r <= end,
{
    let ghost b = bound(v@, end as int);
    let quote = v[start];
    let mut i = start + 1;
    proof {
        lemma_string_end(b, quote, i as int);
    }
    while i < end
        invariant
            quote == v@[start as int],
            start + 1 <= i <= end + 1,
            end <= v.len(),
            fits(end as int),
            b == bound(v@, end as int),
            string_end(b, quote, start + 1) == string_end(b, quote, i as int),
        decreases end + 1 - i,
    {
        if v[i] == '\\' {
            i += 2;
            continue;
        }
        if v[i] == quote {
            assert(b[i as int] == quote);
            return i + 1;
        }
        i += 1;
    }
    end
}

/// Position of the closing `quote` of a quoted value whose body starts at `i`.
pub open spec fn quoted_close(b: Seq<char>, quote: char, i: int) -> Option<int>
    decreases b.len() + 1 - i,
{
    if i < 0 || i >= b.len() {
        None
    } else if b[i] == '\\' {
        quoted_close(b, quote, i + 2)
    } else if b[i] == quote {
        Some(i)
    } else {
        quoted_close(b, quote, i + 1)
    }
}

pub proof fn lemma_quoted_close(b: Seq<char>, quote: char, i: int)
    requires
        0 <= i,
    ensures
        quoted_close(b, quote, i) matches Some(k) ==> i <= k < b.len() && b[k] == quote,
    decreases b.len() + 1 - i,
{
    if 0 <= i < b.len() {
        if b[i] == '\\' {
            lemma_quoted_close(b, quote, i + 2);
        } else if b[i] != quote {
            lemma_quoted_close(b, quote, i + 1);
        }
    }
}

/// The text of a `'…'` or `"…"` literal starting at `start`.
pub open spec fn quoted_value(b: Seq<char>, start: int) -> Option<Seq<char>> {
    if start < 0 || start >= b.len() || !is_quote(b[start]) || b[start] == '`' {
        None
    } else {
        match quoted_close(b, b[start], start + 1) {
            Some(k) => Some(b.subrange(start + 1, k)),
            None => None,
        }
    }
}

fn quoted_value_at(v: &Vec<char>, end: usize, start: usize) -> (r: Option<String>)
    requires
        end <= v.len(),
        fits(end as int),
    ensures
        match r {
            Some(s) => quoted_value(bound(v@, end as int), start as int) == Some(s@),
            None => quoted_value(bound(v@, end as int), start as int) is None,
        },
{
    let ghost b = bound(v@, end as int);
    if start >= end {
        return None;
    }
    let quote = v[start];
    assert(b[start as int] == quote);
    if !quote_char(quote) || quote == '`' {
        return None;
    }
    let mut index = start + 1;
    proof {
        lemma_quoted_close(b, quote, index as int);
    }
    while index < end
        invariant
            start + 1 <= index <= end + 1,
            start < end <= v.len(),
            fits(end as int),
            b == bound(v@, end as int),
            quote == b[start as int],
            is_quote(quote),
            quote != '`',
            quoted_close(b, quote, start + 1) == quoted_close(b, quote, index as int),
        decreases end + 1 - index,
    {
        if v[index] == '\\' {
            index += 2;
            continue;
        }
        if v[index] == quote {
            assert(b[index as int] == quote);
            assert(quoted_close(b, quote, index as int) == Some(index as int));
            let s = chars_to_string(v, start + 1, index);
            assert(s@ == b.subrange(start + 1, index as int));
            return Some(s);
        }
        index += 1;
    }
    None
}

/// The identifier starting exactly at `start`, if one does.
pub open spec fn word_at(b: Seq<char>, start: int) -> Option<Seq<char>> {
    if start < 0 || start >= b.len() || !is_ident_start(b[start]) {
        None
    } else {
        Some(b.subrange(start, ident_end(b, start)))
    }
}

/// Whether the identifier at `start` is exactly `word`.
fn word_is(v: &Vec<char>, end: usize, start: usize, word: &[char]) -> (r: bool)
    requires
        end <= v.len(),
    ensures
        r == (word_at(bound(v@, end as int), start as int) == Some(word@)),
        r ==> start + word@.len() <= end,
{
    let ghost b = bound(v@, end as int);
    if start >= end || !ident_start_char(v[start]) {
        return false;
    }
    assert(b[start as int] == v@[start as int]);
    let stop = skip_identifier(v, end, start);
    proof {
        lemma_ident_end(b, start as int + 1);
        assert(ident_end(b, start as int) == ident_end(b, start as int + 1));
    }
    if stop - start != word.len() {
        assert(b.subrange(start as int, stop as int).len() != word@.len());
        return false;
    }
    let mut k: usize = 0;
    while k < word.len()
        invariant
            start < stop <= end <= v.len(),
            stop == ident_end(b, start as int),
            is_ident_start(b[start as int]),
            stop - start == word.len(),
            k <= word.len(),
            b == bound(v@, end as int),
            forall|m: int| 0 <= m < k ==> b[start + m] == word@[m],
        decreases word.len() - k,
    {
        if v[start + k] != word[k] {
            assert(b.subrange(start as int, stop as int)[k as int] != word@[k as int]);
            assert(b.subrange(start as int, stop as int) != word@);
            return false;
        }
        k += 1;
    }
    assert(b.subrange(start as int, stop as int) =~= word@);
    true
}

// ─── Regular expressions ────────────────────────────────────────────────────

pub const KW_AWAIT: [char; 5] = ['a', 'w', 'a', 'i', 't'];
pub const KW_CASE: [char; 4] = ['c', 'a', 's', 'e'];
pub const KW_DELETE: [char; 6] = ['d', 'e', 'l', 'e', 't', 'e'];
pub const KW_DO: [char; 2] = ['d', 'o'];
pub const KW_ELSE: [char; 4] = ['e', 'l', 's', 'e'];
pub const KW_IN: [char; 2] = ['i', 'n'];
pub const KW_INSTANCEOF: [char; 10] = ['i', 'n', 's', 't', 'a', 'n', 'c', 'e', 'o', 'f'];
pub const KW_NEW: [char; 3] = ['n', 'e', 'w'];
pub const KW_OF: [char; 2] = ['o', 'f'];
pub const KW_RETURN: [char; 6] = ['r', 'e', 't', 'u', 'r', 'n'];
pub const KW_THROW: [char; 5] = ['t', 'h', 'r', 'o', 'w'];
pub const KW_TYPEOF: [char; 6] = ['t', 'y', 'p', 'e', 'o', 'f'];
pub const KW_VOID: [char; 4] = ['v', 'o', 'i', 'd'];
pub const KW_YIELD: [char; 5] = ['y', 'i', 'e', 'l', 'd'];

/// Keywords after which a `/` begins a regular expression.
pub open spec fn is_regex_keyword(w: Seq<char>) -> bool {
    w == KW_AWAIT@ || w == KW_CASE@ || w == KW_DELETE@ || w == KW_DO@ || w == KW_ELSE@
        || w == KW_IN@ || w == KW_INSTANCEOF@ || w == KW_NEW@ || w == KW_OF@ || w
        == KW_RETURN@ || w == KW_THROW@ || w == KW_TYPEOF@ || w == KW_VOID@ || w
        == KW_YIELD@
}

/// Start of the run of identifier characters that ends just before `j`.
pub open spec fn ident_back(b: Seq<char>, j: int) -> int
    decreases j,
{
    if 0 < j <= b.len() && is_ident_continue(b[j - 1]) {
        ident_back(b, j - 1)
    } else {
        j
    }
}

pub proof fn lemma_ident_back(b: Seq<char>, j: int)
    requires
        0 <= j <= b.len(),
    ensures
        0 <= ident_back(b, j) <= j,
    decreases j,
{
    if 0 < j && is_ident_continue(b[j - 1]) {
        lemma_ident_back(b, j - 1);
    }
}

/// Whether the identifier ending at `end` (inclusive) is a value-expecting keyword.
pub open spec fn previous_is_keyword(b: Seq<char>, end: int) -> bool {
    is_regex_keyword(b.subrange(ident_back(b, end + 1), end + 1))
}

/// Whether a `/` opens a regular expression, given the index of the last
/// character that can end a token.
///
/// A regex may only appear where a value is expected. When the preceding token
/// could end a value (identifier, number, string, closing bracket) the slash is
/// division; keywords such as `return` are value-expecting positions.
pub open spec fn regex_may_start(b: Seq<char>, previous_significant: Option<int>) -> bool {
    match previous_significant {
        None => true,
        Some(i) => {
            let c = b[i];
            if c == ')' || c == ']' || c == '}' || c == '\'' || c == '"' || c == '`' {
                false
            } else if is_ident_continue(c) {
                previous_is_keyword(b, i)
            } else {
                true
            }
        },
    }
}

/// Whether `v[from..to]` is exactly `word`.
fn range_is(v: &Vec<char>, from: usize, to: usize, word: &[char]) -> (r: bool)
    requires
        from <= to <= v.len(),
    ensures
        r == (v@.subrange(from as int, to as int) == word@),
{
    if to - from != word.len() {
        assert(v@.subrange(from as int, to as int).len() != word@.len());
        return false;
    }
    let mut k: usize = 0;
    while k < word.len()
        invariant
            from <= to <= v.len(),
            to - from == word.len(),
            k <= word.len(),
            forall|m: int| 0 <= m < k ==> v@[from + m] == word@[m],
        decreases word.len() - k,
    {
        if v[from + k] != word[k] {
            assert(v@.subrange(from as int, to as int)[k as int] != word@[k as int]);
            return false;
        }
        k += 1;
    }
    assert(v@.subrange(from as int, to as int) =~= word@);
    true
}

fn previous_token_is_keyword(v: &Vec<char>, end: usize, idx: usize) -> (r: bool)
    requires
        end <= v.len(),
        idx < end,
    ensures
        r == previous_is_keyword(bound(v@, end as int), idx as int),
{
    let ghost b = bound(v@, end as int);
    let mut start = idx + 1;
    while start > 0 && ident_continue_char(v[start - 1])
        invariant
            start <= idx + 1,
            idx < end <= v.len(),
            b == bound(v@, end as int),
            ident_back(b, idx + 1) == ident_back(b, start as int),
        decreases start,
    {
        start -= 1;
    }
    assert(b.subrange(start as int, idx + 1) =~= v@.subrange(start as int, idx + 1));
    range_is(v, start, idx + 1, &KW_AWAIT) || range_is(v, start, idx + 1, &KW_CASE)
        || range_is(v, start, idx + 1, &KW_DELETE) || range_is(v, start, idx + 1, &KW_DO)
        || range_is(v, start, idx + 1, &KW_ELSE) || range_is(v, start, idx + 1, &KW_IN)
        || range_is(v, start, idx + 1, &KW_INSTANCEOF) || range_is(v, start, idx + 1, &KW_NEW)
        || range_is(v, start, idx + 1, &KW_OF) || range_is(v, start, idx + 1, &KW_RETURN)
        || range_is(v, start, idx + 1, &KW_THROW) || range_is(v, start, idx + 1, &KW_TYPEOF)
        || range_is(v, start, idx + 1, &KW_VOID) || range_is(v, start, idx + 1, &KW_YIELD)
}

fn regex_can_start(v: &Vec<char>, end: usize, previous_significant: Option<usize>) -> (r: bool)
    requires
        end <= v.len(),
        previous_significant matches Some(i) ==> i < end,
    ensures
        r == regex_may_start(
            bound(v@, end as int),
            match previous_significant {
                Some(i) => Some(i as int),
                None => None,
            },
        ),
{
    match previous_significant {
        None => true,
        Some(i) => {
            let c = v[i];
            assert(bound(v@, end as int)[i as int] == c);
            if c == ')' || c == ']' || c == '}' || c == '\'' || c == '"' || c == '`' {
                false
            } else if ident_continue_char(c) {
                previous_token_is_keyword(v, end, i)
            } else {
                true
            }
        },
    }
}

/// Index just past a regular expression literal whose body starts at `i`,
/// with `class` telling whether `i` is inside a character class. A newline
/// ends an unterminated literal where it stands.
pub open spec fn regex_end(b: Seq<char>, i: int, class: bool) -> int
    decreases b.len() + 1 - i,
{
    if i < 0 || i >= b.len() {
        i
    } else if b[i] == '\\' {
        regex_end(b, if i + 2 <= b.len() { i + 2 } else { b.len() as int }, class)
    } else if b[i] == '[' {
        regex_end(b, i + 1, true)
    } else if b[i] == ']' && class {
        regex_end(b, i + 1, false)
    } else if b[i] == '\n' {
        i
    } else if b[i] == '/' && !class {
        ident_end(b, i + 1)
    } else {
        regex_end(b, i + 1, class)
    }
}

pub proof fn lemma_regex_end(b: Seq<char>, i: int, class: bool)
    requires
        0 <= i <= b.len(),
    ensures
        i <= regex_end(b, i, class) <= b.len(),
    decreases b.len() + 1 - i,
{
    if i < b.len() {
        if b[i] == '\\' {
            lemma_regex_end(b, if i + 2 <= b.len() { i + 2 } else { b.len() as int }, class);
        } else if b[i] == '[' {
            lemma_regex_end(b, i + 1, true);
        } else if b[i] == ']' && class {
            lemma_regex_end(b, i + 1, false);
        } else if b[i] == '\n' {
        } else if b[i] == '/' && !class {
            lemma_ident_end(b, i + 1);
        } else {
            lemma_regex_end(b, i + 1, class);
        }
    }
}

fn skip_regex_literal(v: &Vec<char>, end: usize, start: usize) -> (r: usize)
    requires
        end <= v.len(),
        start < end,
        fits(end as int),
    ensures
        r == regex_end(bound(v@, end as int), start + 1, false),
        start + 1 <= r <= end,
{
    let ghost b = bound(v@, end as int);
    let mut index = start + 1;
    let mut class = false;
    proof {
        lemma_regex_end(b, index as int, class);
    }
    while index < end
        invariant
            start + 1 <= index <= end <= v.len(),
            fits(end as int),
            b == bound(v@, end as int),
            regex_end(b, start + 1, false) == regex_end(b, index as int, class),
        decreases end - index,
    {
        let c = v[index];
        if c == '\\' {
            index = if end - index >= 2 { index + 2 } else { end };
        } else if c == '[' {
            class = true;
            index += 1;
        } else if c == ']' && class {
            class = false;
            index += 1;
        } else if c == '\n' {
            return index;
        } else if c == '/' && !class {
            index += 1;
            let r = skip_identifier(v, end, index);
            proof {
                lemma_ident_end(b, index as int);
            }
            return r;
        } else {
            index += 1;
        }
    }
    index
}

// ─── Template literals ───────────────────────────────────────────────────────

/// Walk a template literal's body from `i`, collecting the code ranges of its
/// `${ … }` interpolations after `acc`. Returns the index just past the closing
/// backtick (or the end) together with the ranges.
pub open spec fn template_scan(b: Seq<char>, i: int, acc: Seq<(int, int)>) -> (int, Seq<(int, int)>)
    decreases b.len() + 1 - i,
{
    if i < 0 || i >= b.len() {
        (b.len() as int, acc)
    } else if b[i] == '\\' {
        template_scan(b, if i + 2 <= b.len() { i + 2 } else { b.len() as int }, acc)
    } else if b[i] == '`' {
        (i + 1, acc)
    } else if b[i] == '$' && i + 1 < b.len() && b[i + 1] == '{' {
        let code_end = interpolation_scan(b, i + 2, 1);
        let next = if code_end + 1 <= b.len() { code_end + 1 } else { b.len() as int };
        if i < next {
            template_scan(b, next, acc.push((i + 2, code_end)))
        } else {
            (b.len() as int, acc)
        }
    } else {
        template_scan(b, i + 1, acc)
    }
}

/// Index of the `}` closing an interpolation, scanning from `i` at brace
/// `depth`. Braces inside nested strings, templates, and comments do not count.
pub open spec fn interpolation_scan(b: Seq<char>, i: int, depth: int) -> int
    decreases b.len() + 1 - i,
{
    if i < 0 || i >= b.len() {
        b.len() as int
    } else if is_comment_start(b, i) {
        proof {
            lemma_comment_end(b, i);
        }
        interpolation_scan(b, comment_end(b, i), depth)
    } else if b[i] == '`' {
        let after = template_scan(b, i + 1, Seq::empty()).0;
        if i < after <= b.len() {
            interpolation_scan(b, after, depth)
        } else {
            b.len() as int
        }
    } else if b[i] == '\'' || b[i] == '"' {
        proof {
            lemma_string_end(b, b[i], i + 1);
        }
        interpolation_scan(b, string_end(b, b[i], i + 1), depth)
    } else if b[i] == '{' {
        interpolation_scan(b, i + 1, depth + 1)
    } else if b[i] == '}' {
        if depth - 1 == 0 {
            i
        } else {
            interpolation_scan(b, i + 1, depth - 1)
        }
    } else {
        interpolation_scan(b, i + 1, depth)
    }
}

/// Every range in `acc` lies strictly after `lo` and ends by `hi`, and starts
/// no later than it ends.
pub open spec fn ranges_within(acc: Seq<(int, int)>, lo: int, hi: int) -> bool {
    forall|k: int|
        0 <= k < acc.len() ==> lo < (#[trigger] acc[k]).0 && acc[k].0 <= acc[k].1 && acc[k].1 <= hi
}

pub proof fn lemma_template_scan(b: Seq<char>, i: int, acc: Seq<(int, int)>, lo: int)
    requires
        0 <= lo < i <= b.len(),
        ranges_within(acc, lo, b.len() as int),
    ensures
        i <= template_scan(b, i, acc).0 <= b.len(),
        ranges_within(template_scan(b, i, acc).1, lo, b.len() as int),
        acc.len() <= template_scan(b, i, acc).1.len(),
        template_scan(b, i, acc).1.subrange(0, acc.len() as int) == acc,
    decreases b.len() + 1 - i, 0int,
{
    if i < b.len() {
        if b[i] == '\\' {
            lemma_template_scan(b, if i + 2 <= b.len() { i + 2 } else { b.len() as int }, acc, lo);
        } else if b[i] == '`' {
            assert(acc.subrange(0, acc.len() as int) =~= acc);
        } else if b[i] == '$' && i + 1 < b.len() && b[i + 1] == '{' {
            lemma_interpolation_scan(b, i + 2, 1);
            let code_end = interpolation_scan(b, i + 2, 1);
            let next = if code_end + 1 <= b.len() { code_end + 1 } else { b.len() as int };
            let acc2 = acc.push((i + 2, code_end));
            assert(ranges_within(acc2, lo, b.len() as int));
            lemma_template_scan(b, next, acc2, lo);
            let r = template_scan(b, next, acc2).1;
            assert(r.subrange(0, acc.len() as int) =~= r.subrange(0, acc2.len() as int).subrange(
                0,
                acc.len() as int,
            ));
            assert(acc2.subrange(0, acc.len() as int) =~= acc);
        } else {
            lemma_template_scan(b, i + 1, acc, lo);
        }
    } else {
        assert(acc.subrange(0, acc.len() as int) =~= acc);
    }
}

pub proof fn lemma_interpolation_scan(b: Seq<char>, i: int, depth: int)
    requires
        0 <= i <= b.len(),
    ensures
        i <= interpolation_scan(b, i, depth) <= b.len(),
    decreases b.len() + 1 - i, 1int,
{
    if i < b.len() {
        if is_comment_start(b, i) {
            lemma_comment_end(b, i);
            lemma_interpolation_scan(b, comment_end(b, i), depth);
        } else if b[i] == '`' {
            let after = template_scan(b, i + 1, Seq::empty()).0;
            if i < after <= b.len() {
                lemma_interpolation_scan(b, after, depth);
            }
        } else if b[i] == '\'' || b[i] == '"' {
            lemma_string_end(b, b[i], i + 1);
            lemma_interpolation_scan(b, string_end(b, b[i], i + 1), depth);
        } else if b[i] == '{' {
            lemma_interpolation_scan(b, i + 1, depth + 1);
        } else if b[i] == '}' {
            if depth - 1 != 0 {
                lemma_interpolation_scan(b, i + 1, depth - 1);
            }
        } else {
            lemma_interpolation_scan(b, i + 1, depth);
        }
    }
}

/// The integer view of a list of index pairs.
pub open spec fn pairs_view(p: Seq<(usize, usize)>) -> Seq<(int, int)> {
    p.map_values(|x: (usize, usize)| (x.0 as int, x.1 as int))
}

/// Walk the template literal whose opening backtick is at `start`.
fn template_literal(v: &Vec<char>, end: usize, start: usize) -> (r: (usize, Vec<(usize, usize)>))
    requires
        end <= v.len(),
        start < end,
        fits(end as int),
    ensures
        (r.0 as int, pairs_view(r.1@)) == template_scan(bound(v@, end as int), start + 1, Seq::empty()),
        start + 1 <= r.0 <= end,
    decreases end + 1 - start, 0int,
{
    let ghost b = bound(v@, end as int);
    let mut index = start + 1;
    let mut interpolations: Vec<(usize, usize)> = Vec::new();
    proof {
        lemma_template_scan(b, index as int, Seq::empty(), start as int);
        assert(pairs_view(interpolations@) =~= Seq::<(int, int)>::empty());
    }
    while index < end
        invariant
            start + 1 <= index <= end <= v.len(),
            fits(end as int),
            b == bound(v@, end as int),
            template_scan(b, start + 1, Seq::empty()) == template_scan(
                b,
                index as int,
                pairs_view(interpolations@),
            ),
        decreases end - index,
    {
        let c = v[index];
        if c == '\\' {
            index = if end - index >= 2 { index + 2 } else { end };
        } else if c == '`' {
            return (index + 1, interpolations);
        } else if c == '$' && end - index > 1 && v[index + 1] == '{' {
            let code_start = index + 2;
            let code_end = interpolation_end(v, end, code_start);
            let ghost old_view = pairs_view(interpolations@);
            interpolations.push((code_start, code_end));
            assert(pairs_view(interpolations@) =~= old_view.push((code_start as int, code_end as int)));
            index = if end - code_end >= 1 { code_end + 1 } else { end };
        } else {
            index += 1;
        }
    }
    (end, interpolations)
}

/// Index of the `}` closing an interpolation whose code begins at `start`.
fn interpolation_end(v: &Vec<char>, end: usize, start: usize) -> (r: usize)
    requires
        end <= v.len(),
        start <= end,
        fits(end as int),
    ensures
        r == interpolation_scan(bound(v@, end as int), start as int, 1),
        start <= r <= end,
    decreases end + 1 - start, 1int,
{
    let ghost b = bound(v@, end as int);
    let mut index = start;
    let mut depth: usize = 1;
    proof {
        lemma_interpolation_scan(b, start as int, 1);
    }
    while index < end
        invariant
            start <= index <= end <= v.len(),
            fits(end as int),
            depth >= 1,
            depth <= index - start + 1,
            b == bound(v@, end as int),
            interpolation_scan(b, start as int, 1) == interpolation_scan(
                b,
                index as int,
                depth as int,
            ),
        decreases end - index,
    {
        if comment_start_at(v, end, index) {
            index = skip_comment(v, end, index);
            continue;
        }
        let c = v[index];
        if c == '`' {
            let (after, _) = template_literal(v, end, index);
            index = after;
        } else if c == '\'' || c == '"' {
            index = skip_string(v, end, index);
        } else if c == '{' {
            depth += 1;
            index += 1;
        } else if c == '}' {
            depth -= 1;
            if depth == 0 {
                return index;
            }
            index += 1;
        } else {
            index += 1;
        }
    }
    end
}

// ─── Backward looks ─────────────────────────────────────────────────────────

/// Whether everything between the previous newline and `j` is whitespace.
pub open spec fn line_prefix_ws(b: Seq<char>, j: int) -> bool
    decreases j,
{
    if j <= 0 || j > b.len() {
        true
    } else if b[j - 1] == '\n' {
        true
    } else if !is_ws(b[j - 1]) {
        false
    } else {
        line_prefix_ws(b, j - 1)
    }
}

fn is_line_prefix_whitespace(v: &Vec<char>, end: usize, index: usize) -> (r: bool)
    requires
        end <= v.len(),
        index <= end,
    ensures
        r == line_prefix_ws(bound(v@, end as int), index as int),
{
    let ghost b = bound(v@, end as int);
    let mut j = index;
    while j > 0
        invariant
            j <= index <= end <= v.len(),
            b == bound(v@, end as int),
            line_prefix_ws(b, index as int) == line_prefix_ws(b, j as int),
        decreases j,
    {
        let c = v[j - 1];
        if c == '\n' {
            return true;
        }
        if !ws_char(c) {
            return false;
        }
        j -= 1;
    }
    true
}

/// The last non-whitespace character before `j`.
pub open spec fn previous_non_ws(b: Seq<char>, j: int) -> Option<char>
    decreases j,
{
    if j <= 0 || j > b.len() {
        None
    } else if !is_ws(b[j - 1]) {
        Some(b[j - 1])
    } else {
        previous_non_ws(b, j - 1)
    }
}

fn previous_non_whitespace(v: &Vec<char>, end: usize, index: usize) -> (r: Option<char>)
    requires
        end <= v.len(),
        index <= end,
    ensures
        r == previous_non_ws(bound(v@, end as int), index as int),
{
    let ghost b = bound(v@, end as int);
    let mut j = index;
    while j > 0
        invariant
            j <= index <= end <= v.len(),
            b == bound(v@, end as int),
            previous_non_ws(b, index as int) == previous_non_ws(b, j as int),
        decreases j,
    {
        let c = v[j - 1];
        if !ws_char(c) {
            return Some(c);
        }
        j -= 1;
    }
    None
}

/// Whether `<` at `i` plausibly opens a JSX element.
pub open spec fn looks_like_jsx(b: Seq<char>, i: int) -> bool {
    i + 1 < b.len() && (b[i + 1] == '>' || b[i + 1] == '/' || is_alpha(b[i + 1]))
}

fn looks_like_jsx_at(v: &Vec<char>, end: usize, index: usize) -> (r: bool)
    requires
        end <= v.len(),
        index < end,
    ensures
        r == looks_like_jsx(bound(v@, end as int), index as int),
{
    if end - index > 1 {
        let c = v[index + 1];
        c == '>' || c == '/' || alpha_char(c)
    } else {
        false
    }
}

pub const KW_IMPORT: [char; 6] = ['i', 'm', 'p', 'o', 'r', 't'];
pub const KW_REQUIRE: [char; 7] = ['r', 'e', 'q', 'u', 'i', 'r', 'e'];
pub const KW_EXPORT: [char; 6] = ['e', 'x', 'p', 'o', 'r', 't'];
pub const KW_ENUM: [char; 4] = ['e', 'n', 'u', 'm'];
pub const KW_INTERFACE: [char; 9] = ['i', 'n', 't', 'e', 'r', 'f', 'a', 'c', 'e'];
pub const KW_TYPE: [char; 4] = ['t', 'y', 'p', 'e'];
pub const KW_SATISFIES: [char; 9] = ['s', 'a', 't', 'i', 's', 'f', 'i', 'e', 's'];
pub const KW_IMPLEMENTS: [char; 10] = ['i', 'm', 'p', 'l', 'e', 'm', 'e', 'n', 't', 's'];
pub const KW_DECLARE: [char; 7] = ['d', 'e', 'c', 'l', 'a', 'r', 'e'];
pub const KW_ABSTRACT: [char; 8] = ['a', 'b', 's', 't', 'r', 'a', 'c', 't'];
pub const KW_READONLY: [char; 8] = ['r', 'e', 'a', 'd', 'o', 'n', 'l', 'y'];
pub const KW_PUBLIC: [char; 6] = ['p', 'u', 'b', 'l', 'i', 'c'];
pub const KW_PRIVATE: [char; 7] = ['p', 'r', 'i', 'v', 'a', 't', 'e'];
pub const KW_PROTECTED: [char; 9] = ['p', 'r', 'o', 't', 'e', 'c', 't', 'e', 'd'];
pub const KW_OVERRIDE: [char; 8] = ['o', 'v', 'e', 'r', 'r', 'i', 'd', 'e'];
pub const KW_AS: [char; 2] = ['a', 's'];
pub const KW_FROM: [char; 4] = ['f', 'r', 'o', 'm'];
pub const KW_DEFAULT: [char; 7] = ['d', 'e', 'f', 'a', 'u', 'l', 't'];
pub const KW_ASYNC: [char; 5] = ['a', 's', 'y', 'n', 'c'];
pub const KW_FUNCTION: [char; 8] = ['f', 'u', 'n', 'c', 't', 'i', 'o', 'n'];
pub const KW_CLASS: [char; 5] = ['c', 'l', 'a', 's', 's'];
pub const KW_CONST: [char; 5] = ['c', 'o', 'n', 's', 't'];
pub const KW_LET: [char; 3] = ['l', 'e', 't'];
pub const KW_VAR: [char; 3] = ['v', 'a', 'r'];
pub const KW_PROCESS: [char; 7] = ['p', 'r', 'o', 'c', 'e', 's', 's'];
pub const KW_ENV: [char; 3] = ['e', 'n', 'v'];

// ─── The facts ───────────────────────────────────────────────────────────────

/// The import form that created an edge.
#[derive(Debug, Clone, Copy, PartialEq, Eq, Structural)]
pub enum ImportKind {
    Static,
    Dynamic,
    Require,
    ReExport,
    SideEffect,
}

/// Import edge discovered in a source module.
#[derive(Debug, Clone, PartialEq, Eq)]
pub struct ImportEdge {
    pub specifier: String,
    pub kind: ImportKind,
}

impl View for ImportEdge {
    type V = (Seq<char>, ImportKind);

    open spec fn view(&self) -> (Seq<char>, ImportKind) {
        (self.specifier@, self.kind)
    }
}

/// Structured facts for one source module.
#[derive(Debug, Clone, Default, PartialEq, Eq)]
pub struct ModuleAst {
    pub imports: Vec<ImportEdge>,
    pub exports: Vec<String>,
    /// Names read as `process.env.NAME` or `process.env['NAME']` in code.
    pub env_reads: Vec<String>,
    pub has_jsx: bool,
    pub has_typescript: bool,
    pub has_decorators: bool,
    pub has_enums: bool,
}

/// The mathematical content of a [`ModuleAst`].
pub ghost struct AstFacts {
    pub imports: Seq<(Seq<char>, ImportKind)>,
    pub exports: Seq<Seq<char>>,
    pub env_reads: Seq<Seq<char>>,
    pub has_jsx: bool,
    pub has_typescript: bool,
    pub has_decorators: bool,
    pub has_enums: bool,
}

pub open spec fn strings_view(v: Seq<String>) -> Seq<Seq<char>> {
    v.map_values(|s: String| s@)
}

impl View for ModuleAst {
    type V = AstFacts;

    open spec fn view(&self) -> AstFacts {
        AstFacts {
            imports: self.imports@.map_values(|e: ImportEdge| e@),
            exports: strings_view(self.exports@),
            env_reads: strings_view(self.env_reads@),
            has_jsx: self.has_jsx,
            has_typescript: self.has_typescript,
            has_decorators: self.has_decorators,
            has_enums: self.has_enums,
        }
    }
}

/// Facts of a module in which nothing has been found yet.
pub open spec fn no_facts() -> AstFacts {
    AstFacts {
        imports: Seq::empty(),
        exports: Seq::empty(),
        env_reads: Seq::empty(),
        has_jsx: false,
        has_typescript: false,
        has_decorators: false,
        has_enums: false,
    }
}

impl ModuleAst {
    /// A module with no facts recorded.
    pub fn new() -> (r: ModuleAst)
        ensures
            r@ == no_facts(),
    {
        let r = ModuleAst {
            imports: Vec::new(),
            exports: Vec::new(),
            env_reads: Vec::new(),
            has_jsx: false,
            has_typescript: false,
            has_decorators: false,
            has_enums: false,
        };
        assert(r@.imports =~= Seq::<(Seq<char>, ImportKind)>::empty());
        assert(r@.exports =~= Seq::<Seq<char>>::empty());
        assert(r@.env_reads =~= Seq::<Seq<char>>::empty());
        r
    }
}

// ─── Edges ───────────────────────────────────────────────────────────────────

/// The `from "…"` specifier of the declaration starting at `i`, searched up to
/// the end of the statement.
pub open spec fn find_from(b: Seq<char>, i: int) -> Option<Seq<char>>
    decreases b.len() + 1 - i,
{
    if i < 0 || i >= b.len() {
        None
    } else {
        let j = skip_trivia(b, i);
        if j >= b.len() || b[j] == ';' {
            None
        } else if is_quote(b[j]) {
            proof {
                lemma_skip_trivia(b, i);
                lemma_string_end(b, b[j], j + 1);
            }
            find_from(b, string_end(b, b[j], j + 1))
        } else if word_at(b, j) == Some(KW_FROM@) {
            quoted_value(b, skip_trivia(b, j + 4))
        } else {
            proof {
                lemma_skip_trivia(b, i);
            }
            find_from(b, j + 1)
        }
    }
}

fn find_from_specifier(v: &Vec<char>, end: usize, start: usize) -> (r: Option<String>)
    requires
        end <= v.len(),
        start <= end,
        fits(end as int),
    ensures
        match r {
            Some(x) => find_from(bound(v@, end as int), start as int) == Some(x@),
            None => find_from(bound(v@, end as int), start as int) is None,
        },
{
    let ghost b = bound(v@, end as int);
    let mut index = start;
    while index < end
        invariant
            start <= index <= end <= v.len(),
            fits(end as int),
            b == bound(v@, end as int),
            find_from(b, start as int) == find_from(b, index as int),
        decreases end - index,
    {
        let ghost i0 = index;
        index = skip_whitespace_and_comments(v, end, index);
        if index >= end || v[index] == ';' {
            return None;
        }
        if quote_char(v[index]) {
            index = skip_string(v, end, index);
            continue;
        }
        if word_is(v, end, index, &KW_FROM) {
            let value = skip_whitespace_and_comments(v, end, index + 4);
            return quoted_value_at(v, end, value);
        }
        index += 1;
    }
    None
}

/// What follows `(` after a `require` or `import` keyword: a quoted specifier.
pub open spec fn call_value(b: Seq<char>, after: int) -> Option<Seq<char>> {
    let i = skip_trivia(b, after);
    if i >= b.len() || b[i] != '(' {
        None
    } else {
        quoted_value(b, skip_trivia(b, i + 1))
    }
}

fn call_specifier(v: &Vec<char>, end: usize, after: usize) -> (r: Option<String>)
    requires
        end <= v.len(),
        after <= end,
        fits(end as int),
    ensures
        match r {
            Some(x) => call_value(bound(v@, end as int), after as int) == Some(x@),
            None => call_value(bound(v@, end as int), after as int) is None,
        },
{
    let index = skip_whitespace_and_comments(v, end, after);
    if index >= end || v[index] != '(' {
        return None;
    }
    let index = skip_whitespace_and_comments(v, end, index + 1);
    quoted_value_at(v, end, index)
}

pub open spec fn with_kind(x: Option<Seq<char>>, kind: ImportKind) -> Option<(Seq<char>, ImportKind)> {
    match x {
        Some(s) => Some((s, kind)),
        None => None,
    }
}

fn edge_of(x: Option<String>, kind: ImportKind) -> (r: Option<ImportEdge>)
    ensures
        match r {
            Some(e) => x matches Some(s) && e@ == (s@, kind),
            None => x is None,
        },
{
    match x {
        Some(specifier) => Some(ImportEdge { specifier, kind }),
        None => None,
    }
}

/// The edge created by an `import` keyword ending at `after`.
pub open spec fn import_edge_spec(b: Seq<char>, after: int) -> Option<(Seq<char>, ImportKind)> {
    let i = skip_trivia(b, after);
    if i >= b.len() || b[i] == '.' {
        None
    } else if b[i] == '(' {
        with_kind(call_value(b, i), ImportKind::Dynamic)
    } else if is_quote(b[i]) {
        with_kind(quoted_value(b, i), ImportKind::SideEffect)
    } else if word_at(b, i) == Some(KW_TYPE@) {
        None
    } else {
        with_kind(find_from(b, i), ImportKind::Static)
    }
}

fn import_edge(v: &Vec<char>, end: usize, after: usize) -> (r: Option<ImportEdge>)
    requires
        end <= v.len(),
        after <= end,
        fits(end as int),
    ensures
        match r {
            Some(e) => import_edge_spec(bound(v@, end as int), after as int) == Some(e@),
            None => import_edge_spec(bound(v@, end as int), after as int) is None,
        },
{
    let index = skip_whitespace_and_comments(v, end, after);
    if index >= end || v[index] == '.' {
        return None;
    }
    if v[index] == '(' {
        return edge_of(call_specifier(v, end, index), ImportKind::Dynamic);
    }
    if quote_char(v[index]) {
        return edge_of(quoted_value_at(v, end, index), ImportKind::SideEffect);
    }
    if word_is(v, end, index, &KW_TYPE) {
        return None;
    }
    edge_of(find_from_specifier(v, end, index), ImportKind::Static)
}

/// The re-export edge created by an `export` keyword ending at `after`.
pub open spec fn export_edge_spec(b: Seq<char>, after: int) -> Option<(Seq<char>, ImportKind)> {
    let i = skip_trivia(b, after);
    if word_at(b, i) == Some(KW_TYPE@) || !(i < b.len() && (b[i] == '{' || b[i] == '*')) {
        None
    } else {
        with_kind(find_from(b, i), ImportKind::ReExport)
    }
}

fn export_edge(v: &Vec<char>, end: usize, after: usize) -> (r: Option<ImportEdge>)
    requires
        end <= v.len(),
        after <= end,
        fits(end as int),
    ensures
        match r {
            Some(e) => export_edge_spec(bound(v@, end as int), after as int) == Some(e@),
            None => export_edge_spec(bound(v@, end as int), after as int) is None,
        },
{
    let index = skip_whitespace_and_comments(v, end, after);
    if word_is(v, end, index, &KW_TYPE) || !(index < end && (v[index] == '{' || v[index] == '*')) {
        return None;
    }
    edge_of(find_from_specifier(v, end, index), ImportKind::ReExport)
}

pub open spec fn is_declaration_kind(w: Seq<char>) -> bool {
    w == KW_FUNCTION@ || w == KW_CLASS@ || w == KW_CONST@ || w == KW_LET@ || w == KW_VAR@
}

/// The name declared by `export [default] [async] function|class|const|let|var [*] NAME`.
pub open spec fn export_name_spec(b: Seq<char>, after: int) -> Option<Seq<char>> {
    let i0 = skip_trivia(b, after);
    let i1 = if word_at(b, i0) == Some(KW_DEFAULT@) {
        skip_trivia(b, i0 + 7)
    } else {
        i0
    };
    let i2 = if word_at(b, i1) == Some(KW_ASYNC@) {
        skip_trivia(b, i1 + 5)
    } else {
        i1
    };
    match word_at(b, i2) {
        None => None,
        Some(kind) => if is_declaration_kind(kind) {
            let i3 = skip_trivia(b, i2 + kind.len());
            let i4 = if i3 < b.len() && b[i3] == '*' {
                skip_trivia(b, i3 + 1)
            } else {
                i3
            };
            let e = ident_end(b, i4);
            if e > i4 {
                Some(b.subrange(i4, e))
            } else {
                None
            }
        } else {
            None
        },
    }
}

fn export_name(v: &Vec<char>, end: usize, after: usize) -> (r: Option<String>)
    requires
        end <= v.len(),
        after <= end,
        fits(end as int),
    ensures
        match r {
            Some(x) => export_name_spec(bound(v@, end as int), after as int) == Some(x@),
            None => export_name_spec(bound(v@, end as int), after as int) is None,
        },
{
    let ghost b = bound(v@, end as int);
    let mut index = skip_whitespace_and_comments(v, end, after);
    if word_is(v, end, index, &KW_DEFAULT) {
        index = skip_whitespace_and_comments(v, end, index + 7);
    }
    if word_is(v, end, index, &KW_ASYNC) {
        index = skip_whitespace_and_comments(v, end, index + 5);
    }
    let len: usize = if word_is(v, end, index, &KW_FUNCTION) {
        8
    } else if word_is(v, end, index, &KW_CLASS) {
        5
    } else if word_is(v, end, index, &KW_CONST) {
        5
    } else if word_is(v, end, index, &KW_LET) {
        3
    } else if word_is(v, end, index, &KW_VAR) {
        3
    } else {
        return None;
    };
    index = skip_whitespace_and_comments(v, end, index + len);
    if index < end && v[index] == '*' {
        index = skip_whitespace_and_comments(v, end, index + 1);
    }
    let stop = skip_identifier(v, end, index);
    if stop > index {
        let name = chars_to_string(v, index, stop);
        assert(name@ == b.subrange(index as int, stop as int));
        Some(name)
    } else {
        None
    }
}

/// The name read by `process.env.NAME` or `process.env['NAME']` after the
/// `process` keyword ending at `after`.
pub open spec fn env_read_spec(b: Seq<char>, after: int) -> Option<Seq<char>> {
    let i = skip_trivia(b, after);
    if !(i < b.len() && b[i] == '.') {
        None
    } else {
        let j = skip_trivia(b, i + 1);
        if word_at(b, j) != Some(KW_ENV@) {
            None
        } else {
            let k = skip_trivia(b, j + 3);
            if k < b.len() && b[k] == '.' {
                word_at(b, skip_trivia(b, k + 1))
            } else if k < b.len() && b[k] == '[' {
                quoted_value(b, skip_trivia(b, k + 1))
            } else {
                None
            }
        }
    }
}

fn env_read(v: &Vec<char>, end: usize, after: usize) -> (r: Option<String>)
    requires
        end <= v.len(),
        after <= end,
        fits(end as int),
    ensures
        match r {
            Some(x) => env_read_spec(bound(v@, end as int), after as int) == Some(x@),
            None => env_read_spec(bound(v@, end as int), after as int) is None,
        },
{
    let ghost b = bound(v@, end as int);
    let index = skip_whitespace_and_comments(v, end, after);
    if !(index < end && v[index] == '.') {
        return None;
    }
    let index = skip_whitespace_and_comments(v, end, index + 1);
    if !word_is(v, end, index, &KW_ENV) {
        return None;
    }
    let index = skip_whitespace_and_comments(v, end, index + 3);
    if index < end && v[index] == '.' {
        let name_start = skip_whitespace_and_comments(v, end, index + 1);
        if name_start >= end || !ident_start_char(v[name_start]) {
            return None;
        }
        let stop = skip_identifier(v, end, name_start);
        let name = chars_to_string(v, name_start, stop);
        assert(name@ == b.subrange(name_start as int, stop as int));
        Some(name)
    } else if index < end && v[index] == '[' {
        let value = skip_whitespace_and_comments(v, end, index + 1);
        quoted_value_at(v, end, value)
    } else {
        None
    }
}

// ─── The scan ────────────────────────────────────────────────────────────────

pub open spec fn is_typescript_keyword(w: Seq<char>) -> bool {
    w == KW_INTERFACE@ || w == KW_TYPE@ || w == KW_SATISFIES@ || w == KW_IMPLEMENTS@ || w
        == KW_DECLARE@ || w == KW_ABSTRACT@ || w == KW_READONLY@ || w == KW_PUBLIC@ || w
        == KW_PRIVATE@ || w == KW_PROTECTED@ || w == KW_OVERRIDE@
}

pub open spec fn add_import(m: AstFacts, e: Option<(Seq<char>, ImportKind)>) -> AstFacts {
    match e {
        Some(edge) => AstFacts { imports: m.imports.push(edge), ..m },
        None => m,
    }
}

/// What the identifier `b[start..stop]` contributes to the facts `m`.
pub open spec fn word_effect(b: Seq<char>, start: int, stop: int, m: AstFacts) -> AstFacts {
    let w = b.subrange(start, stop);
    if w == KW_IMPORT@ {
        add_import(m, import_edge_spec(b, stop))
    } else if w == KW_REQUIRE@ && previous_non_ws(b, start) != Some('.') {
        add_import(m, with_kind(call_value(b, stop), ImportKind::Require))
    } else if w == KW_EXPORT@ {
        let m1 = add_import(m, export_edge_spec(b, stop));
        match export_name_spec(b, stop) {
            Some(name) => add_export(m1, name),
            None => m1,
        }
    } else if w == KW_ENUM@ {
        AstFacts { has_enums: true, has_typescript: true, ..m }
    } else if is_typescript_keyword(w) {
        AstFacts { has_typescript: true, ..m }
    } else if w == KW_AS@ && previous_non_ws(b, start) is Some {
        AstFacts { has_typescript: true, ..m }
    } else if w == KW_PROCESS@ {
        match env_read_spec(b, stop) {
            Some(name) => add_env_read(m, name),
            None => m,
        }
    } else {
        m
    }
}

/// The facts found by scanning `s[i..end]` as code, starting from `m`, where
/// `prev` is the last character that can end a token.
pub open spec fn scan_range(s: Seq<char>, end: int, i: int, prev: Option<int>, m: AstFacts) -> AstFacts
    decreases end + 1 - i, 1int, 0int,
{
    if end < 0 || end > s.len() || i < 0 || i >= end {
        m
    } else {
        let b = bound(s, end);
        if is_comment_start(b, i) {
            proof {
                lemma_comment_end(b, i);
            }
            scan_range(s, end, comment_end(b, i), prev, m)
        } else if b[i] == '`' {
            let t = template_scan(b, i + 1, Seq::empty());
            let m2 = scan_interpolations(s, end, i, t.1, 0, m);
            if i < t.0 <= end {
                scan_range(s, end, t.0, Some(i), m2)
            } else {
                m2
            }
        } else if is_quote(b[i]) {
            proof {
                lemma_string_end(b, b[i], i + 1);
            }
            scan_range(s, end, string_end(b, b[i], i + 1), Some(i), m)
        } else if b[i] == '/' && regex_may_start(b, prev) {
            proof {
                lemma_regex_end(b, i + 1, false);
            }
            scan_range(s, end, regex_end(b, i + 1, false), Some(i), m)
        } else if b[i] == '@' && line_prefix_ws(b, i) {
            scan_range(s, end, i + 1, Some(i), AstFacts { has_decorators: true, ..m })
        } else {
            let m1 = if b[i] == '<' && looks_like_jsx(b, i) {
                AstFacts { has_jsx: true, ..m }
            } else {
                m
            };
            if !is_ident_start(b[i]) {
                scan_range(s, end, i + 1, if is_ws(b[i]) { prev } else { Some(i) }, m1)
            } else {
                proof {
                    lemma_ident_end(b, i + 1);
                }
                let j = ident_end(b, i);
                scan_range(s, end, j, Some(j - 1), word_effect(b, i, j, m1))
            }
        }
    }
}

/// The facts found by scanning, in order, each interpolation range of a
/// template literal that opened at `lo`, from the `k`-th on.
pub open spec fn scan_interpolations(
    s: Seq<char>,
    end: int,
    lo: int,
    ranges: Seq<(int, int)>,
    k: int,
    m: AstFacts,
) -> AstFacts
    decreases end + 1 - lo, 0int, ranges.len() - k,
{
    if k < 0 || k >= ranges.len() {
        m
    } else {
        let cs = ranges[k].0;
        let ce = ranges[k].1;
        let m1 = if lo < cs && cs <= ce && ce <= end {
            scan_range(s, ce, cs, None, m)
        } else {
            m
        };
        scan_interpolations(s, end, lo, ranges, k + 1, m1)
    }
}

pub open spec fn opt_int(p: Option<usize>) -> Option<int> {
    match p {
        Some(i) => Some(i as int),
        None => None,
    }
}

impl ModuleAst {
    fn push_import(&mut self, e: Option<ImportEdge>)
        ensures
            final(self)@ == add_import(old(self)@, edge_view(e)),
    {
        if let Some(edge) = e {
            let ghost before = self.imports@;
            self.imports.push(edge);
            assert(self.imports@.map_values(|x: ImportEdge| x@) =~= before.map_values(
                |x: ImportEdge| x@,
            ).push(edge@));
        }
    }

    fn push_export(&mut self, name: String)
        ensures
            final(self)@ == add_export(old(self)@, name@),
    {
        let ghost before = self.exports@;
        self.exports.push(name);
        assert(strings_view(self.exports@) =~= strings_view(before).push(name@));
    }

    fn push_env_read(&mut self, name: String)
        ensures
            final(self)@ == add_env_read(old(self)@, name@),
    {
        let ghost before = self.env_reads@;
        self.env_reads.push(name);
        assert(strings_view(self.env_reads@) =~= strings_view(before).push(name@));
    }
}

pub open spec fn edge_view(e: Option<ImportEdge>) -> Option<(Seq<char>, ImportKind)> {
    match e {
        Some(x) => Some(x@),
        None => None,
    }
}

pub open spec fn add_export(m: AstFacts, name: Seq<char>) -> AstFacts {
    AstFacts { exports: m.exports.push(name), ..m }
}

pub open spec fn add_env_read(m: AstFacts, name: Seq<char>) -> AstFacts {
    AstFacts { env_reads: m.env_reads.push(name), ..m }
}

/// Record what the identifier `v[start..stop]` contributes.
fn apply_word(v: &Vec<char>, end: usize, start: usize, stop: usize, ast: &mut ModuleAst)
    requires
        end <= v.len(),
        start < stop <= end,
        fits(end as int),
    ensures
        final(ast)@ == word_effect(bound(v@, end as int), start as int, stop as int, old(ast)@),
{
    let ghost b = bound(v@, end as int);
    assert(b.subrange(start as int, stop as int) =~= v@.subrange(start as int, stop as int));
    if range_is(v, start, stop, &KW_IMPORT) {
        let edge = import_edge(v, end, stop);
        ast.push_import(edge);
    } else if range_is(v, start, stop, &KW_REQUIRE) && previous_non_whitespace(v, end, start)
        != Some('.') {
        let edge = edge_of(call_specifier(v, end, stop), ImportKind::Require);
        ast.push_import(edge);
    } else if range_is(v, start, stop, &KW_EXPORT) {
        let edge = export_edge(v, end, stop);
        ast.push_import(edge);
        if let Some(name) = export_name(v, end, stop) {
            ast.push_export(name);
        }
    } else if range_is(v, start, stop, &KW_ENUM) {
        ast.has_enums = true;
        ast.has_typescript = true;
    } else if range_is(v, start, stop, &KW_INTERFACE) || range_is(v, start, stop, &KW_TYPE)
        || range_is(v, start, stop, &KW_SATISFIES) || range_is(v, start, stop, &KW_IMPLEMENTS)
        || range_is(v, start, stop, &KW_DECLARE) || range_is(v, start, stop, &KW_ABSTRACT)
        || range_is(v, start, stop, &KW_READONLY) || range_is(v, start, stop, &KW_PUBLIC)
        || range_is(v, start, stop, &KW_PRIVATE) || range_is(v, start, stop, &KW_PROTECTED)
        || range_is(v, start, stop, &KW_OVERRIDE) {
        ast.has_typescript = true;
    } else if range_is(v, start, stop, &KW_AS) && previous_non_whitespace(v, end, start).is_some() {
        ast.has_typescript = true;
    } else if range_is(v, start, stop, &KW_PROCESS) {
        if let Some(name) = env_read(v, end, stop) {
            ast.push_env_read(name);
        }
    }
}

/// Scan `v[start..end]` as code, recording facts into `ast`.
///
/// Takes bounds rather than a sub-vector so positions stay absolute: the
/// scanner looks backwards (`is_line_prefix_whitespace`,
/// `previous_non_whitespace`), and a re-sliced input would make those reads
/// consult the wrong characters.
fn scan_code(v: &Vec<char>, start: usize, end: usize, ast: &mut ModuleAst)
    requires
        start <= end <= v.len(),
        fits(v.len() as int),
    ensures
        final(ast)@ == scan_range(v@, end as int, start as int, None, old(ast)@),
    decreases end + 1 - start, 1int, 0int,
{
    let ghost b = bound(v@, end as int);
    let ghost initial = ast@;
    let mut index = start;
    // Last character that can end a JavaScript token, so a `/` can be
    // classified as a regular expression or a division.
    let mut previous_significant: Option<usize> = None;
    while index < end
        invariant
            start <= index <= end <= v.len(),
            fits(v.len() as int),
            b == bound(v@, end as int),
            previous_significant matches Some(p) ==> p < end,
            scan_range(v@, end as int, start as int, None, initial) == scan_range(
                v@,
                end as int,
                index as int,
                opt_int(previous_significant),
                ast@,
            ),
        decreases end - index,
    {
        if comment_start_at(v, end, index) {
            index = skip_comment(v, end, index);
            continue;
        }
        if v[index] == '`' {
            // A template literal's interpolations are code, not text. Skipping
            // the whole literal would hide `${require("server-only")}` from the
            // boundary check and drop real dependency edges.
            let (after, interpolations) = template_literal(v, end, index);
            proof {
                lemma_template_scan(b, index + 1, Seq::empty(), index as int);
            }
            let ghost ranges = pairs_view(interpolations@);
            let ghost m_before = ast@;
            let mut k: usize = 0;
            while k < interpolations.len()
                invariant
                    start <= index < end <= v.len(),
                    fits(v.len() as int),
                    ranges == pairs_view(interpolations@),
                    ranges_within(ranges, index as int, end as int),
                    k <= interpolations.len(),
                    scan_interpolations(v@, end as int, index as int, ranges, 0, m_before)
                        == scan_interpolations(v@, end as int, index as int, ranges, k as int, ast@),
                decreases interpolations.len() - k,
            {
                let (code_start, code_end) = interpolations[k];
                assert(ranges[k as int] == (code_start as int, code_end as int));
                scan_code(v, code_start, code_end, ast);
                k += 1;
            }
            previous_significant = Some(index);
            index = after;
            continue;
        }
        if quote_char(v[index]) {
            let quote_start = index;
            index = skip_string(v, end, index);
            previous_significant = Some(quote_start);
            continue;
        }
        if v[index] == '/' && regex_can_start(v, end, previous_significant) {
            let slash = index;
            index = skip_regex_literal(v, end, index);
            previous_significant = Some(slash);
            continue;
        }
        if v[index] == '@' && is_line_prefix_whitespace(v, end, index) {
            ast.has_decorators = true;
            previous_significant = Some(index);
            index += 1;
            continue;
        }
        if v[index] == '<' && looks_like_jsx_at(v, end, index) {
            ast.has_jsx = true;
        }
        if !ident_start_char(v[index]) {
            if !ws_char(v[index]) {
                previous_significant = Some(index);
            }
            index += 1;
            continue;
        }
        let word_start = index;
        index = skip_identifier(v, end, index);
        proof {
            lemma_ident_end(b, word_start + 1);
        }
        previous_significant = Some(index - 1);
        apply_word(v, end, word_start, index, ast);
    }
    proof {
        assert(scan_range(v@, end as int, index as int, opt_int(previous_significant), ast@) == ast@);
    }
}

/// Parse source into the facts the bundler needs.
pub fn parse_module(source: &str) -> (ast: ModuleAst)
    requires
        fits(source@.len() as int),
    ensures
        ast@ == scan_range(source@, source@.len() as int, 0, None, no_facts()),
{
    let v = str_chars(source);
    let mut ast = ModuleAst::new();
    scan_code(&v, 0, v.len(), &mut ast);
    ast
}

impl ModuleAst {
    /// Every import specifier, in the order the edges were found.
    pub fn import_specifiers(&self) -> (r: Vec<String>)
        ensures
            strings_view(r@) == self@.imports.map_values(|e: (Seq<char>, ImportKind)| e.0),
    {
        let mut out: Vec<String> = Vec::new();
        let mut i: usize = 0;
        while i < self.imports.len()
            invariant
                i <= self.imports.len(),
                strings_view(out@) == self@.imports.subrange(0, i as int).map_values(
                    |e: (Seq<char>, ImportKind)| e.0,
                ),
            decreases self.imports.len() - i,
        {
            let specifier = self.imports[i].specifier.clone();
            let ghost before = out@;
            out.push(specifier);
            assert(strings_view(out@) =~= strings_view(before).push(specifier@));
            assert(self@.imports.subrange(0, i + 1) =~= self@.imports.subrange(0, i as int).push(
                self@.imports[i as int],
            ));
            i += 1;
            assert(strings_view(out@) =~= self@.imports.subrange(0, i as int).map_values(
                |e: (Seq<char>, ImportKind)| e.0,
            ));
        }
        assert(self@.imports.subrange(0, i as int) =~= self@.imports);
        out
    }

    /// The specifiers of the dynamic `import(…)` edges, in order.
    pub fn dynamic_import_specifiers(&self) -> (r: Vec<String>)
        ensures
            strings_view(r@) == dynamic_specifiers(self@.imports),
    {
        let mut out: Vec<String> = Vec::new();
        let mut i: usize = 0;
        while i < self.imports.len()
            invariant
                i <= self.imports.len(),
                strings_view(out@) == dynamic_specifiers(self@.imports.subrange(0, i as int)),
            decreases self.imports.len() - i,
        {
            assert(self@.imports.subrange(0, i + 1).drop_last() =~= self@.imports.subrange(
                0,
                i as int,
            ));
            if self.imports[i].kind == ImportKind::Dynamic {
                let specifier = self.imports[i].specifier.clone();
                let ghost before = out@;
                out.push(specifier);
                assert(strings_view(out@) =~= strings_view(before).push(specifier@));
            }
            i += 1;
        }
        assert(self@.imports.subrange(0, i as int) =~= self@.imports);
        out
    }
}

/// The specifiers of the `Dynamic` edges of `imports`, in order.
pub open spec fn dynamic_specifiers(imports: Seq<(Seq<char>, ImportKind)>) -> Seq<Seq<char>>
    decreases imports.len(),
{
    if imports.len() == 0 {
        Seq::empty()
    } else {
        let rest = dynamic_specifiers(imports.drop_last());
        if imports.last().1 == ImportKind::Dynamic {
            rest.push(imports.last().0)
        } else {
            rest
        }
    }
}

// ─── Default exports ─────────────────────────────────────────────────────────

/// Whether a `{ … }` export clause, read from `i` with `last` the most recent
/// exported name, binds something to the name `default`.
///
/// The exported name is the last identifier of each comma-separated specifier,
/// so `{ Page as default }` and `{ default }` both qualify while
/// `{ default as Page }` re-exports another module's default under a new name
/// and deliberately does not.
pub open spec fn clause_exports_default(b: Seq<char>, i: int, last: Option<Seq<char>>) -> bool
    decreases b.len() + 1 - i,
{
    if i < 0 || i >= b.len() {
        false
    } else if is_comment_start(b, i) {
        proof {
            lemma_comment_end(b, i);
        }
        clause_exports_default(b, comment_end(b, i), last)
    } else if is_quote(b[i]) {
        proof {
            lemma_string_end(b, b[i], i + 1);
        }
        clause_exports_default(b, string_end(b, b[i], i + 1), None)
    } else if b[i] == '}' {
        last == Some(KW_DEFAULT@)
    } else if b[i] == ',' {
        if last == Some(KW_DEFAULT@) {
            true
        } else {
            clause_exports_default(b, i + 1, None)
        }
    } else if is_ident_start(b[i]) {
        proof {
            lemma_ident_end(b, i + 1);
        }
        let j = ident_end(b, i);
        let w = b.subrange(i, j);
        clause_exports_default(b, j, if w == KW_AS@ { last } else { Some(w) })
    } else {
        clause_exports_default(b, i + 1, last)
    }
}

pub open spec fn range_view(v: Seq<char>, r: Option<(usize, usize)>) -> Option<Seq<char>> {
    match r {
        Some(p) => Some(v.subrange(p.0 as int, p.1 as int)),
        None => None,
    }
}

fn named_clause_exports_default(v: &Vec<char>, end: usize, brace: usize) -> (r: bool)
    requires
        brace < end <= v.len(),
        fits(end as int),
    ensures
        r == clause_exports_default(bound(v@, end as int), brace + 1, None),
{
    let ghost b = bound(v@, end as int);
    let mut index = brace + 1;
    let mut last_word: Option<(usize, usize)> = None;
    while index < end
        invariant
            brace < index <= end <= v.len(),
            fits(end as int),
            b == bound(v@, end as int),
            last_word matches Some(p) ==> p.0 <= p.1 <= end,
            clause_exports_default(b, brace + 1, None) == clause_exports_default(
                b,
                index as int,
                range_view(b, last_word),
            ),
        decreases end - index,
    {
        if comment_start_at(v, end, index) {
            index = skip_comment(v, end, index);
            continue;
        }
        if quote_char(v[index]) {
            // `export { "a-b" as default }` uses a string specifier name.
            index = skip_string(v, end, index);
            last_word = None;
            continue;
        }
        let c = v[index];
        let last_is_default = match last_word {
            Some((from, to)) => {
                assert(b.subrange(from as int, to as int) =~= v@.subrange(from as int, to as int));
                range_is(v, from, to, &KW_DEFAULT)
            },
            None => false,
        };
        if c == '}' {
            return last_is_default;
        } else if c == ',' {
            if last_is_default {
                return true;
            }
            last_word = None;
            index += 1;
        } else if ident_start_char(c) {
            let word_start = index;
            index = skip_identifier(v, end, index);
            proof {
                lemma_ident_end(b, word_start + 1);
            }
            assert(b.subrange(word_start as int, index as int) =~= v@.subrange(
                word_start as int,
                index as int,
            ));
            // `as` is the separator, never the exported name.
            if !range_is(v, word_start, index, &KW_AS) {
                last_word = Some((word_start, index));
            }
        } else {
            index += 1;
        }
    }
    false
}

/// Whether the export clause after an `export` keyword ending at `after`
/// produces a runtime default binding.
pub open spec fn declares_default(b: Seq<char>, after: int) -> bool {
    let i = skip_trivia(b, after);
    if word_at(b, i) == Some(KW_TYPE@) {
        false
    } else {
        match word_at(b, i) {
            Some(w) => w == KW_DEFAULT@,
            None => if i < b.len() && b[i] == '*' {
                let j = skip_trivia(b, i + 1);
                if word_at(b, j) != Some(KW_AS@) {
                    false
                } else {
                    word_at(b, skip_trivia(b, j + 2)) == Some(KW_DEFAULT@)
                }
            } else if i < b.len() && b[i] == '{' {
                clause_exports_default(b, i + 1, None)
            } else {
                false
            },
        }
    }
}

fn export_declares_default(v: &Vec<char>, end: usize, after: usize) -> (r: bool)
    requires
        after <= end <= v.len(),
        fits(end as int),
    ensures
        r == declares_default(bound(v@, end as int), after as int),
{
    let ghost b = bound(v@, end as int);
    let index = skip_whitespace_and_comments(v, end, after);
    // `export type { Page as default }` and `export type default` are erased at
    // compile time and leave no runtime binding behind.
    if word_is(v, end, index, &KW_TYPE) {
        return false;
    }
    if index < end && ident_start_char(v[index]) {
        // `export default …`
        return word_is(v, end, index, &KW_DEFAULT);
    }
    assert(word_at(b, index as int) is None);
    if index < end && v[index] == '*' {
        // `export * as default from "./page"`
        let index = skip_whitespace_and_comments(v, end, index + 1);
        if !word_is(v, end, index, &KW_AS) {
            return false;
        }
        let index = skip_whitespace_and_comments(v, end, index + 2);
        return word_is(v, end, index, &KW_DEFAULT);
    }
    if index < end && v[index] == '{' {
        // `export { Page as default }`, `export { default } from "./page"`
        return named_clause_exports_default(v, end, index);
    }
    false
}

/// Whether scanning `b` from `i` finds an `export` that declares a runtime
/// default binding.
pub open spec fn finds_default_export(b: Seq<char>, i: int, prev: Option<int>) -> bool
    decreases b.len() + 1 - i,
{
    if i < 0 || i >= b.len() {
        false
    } else if is_comment_start(b, i) {
        proof {
            lemma_comment_end(b, i);
        }
        finds_default_export(b, comment_end(b, i), prev)
    } else if b[i] == '`' {
        let after = template_scan(b, i + 1, Seq::empty()).0;
        if i < after <= b.len() {
            finds_default_export(b, after, Some(i))
        } else {
            false
        }
    } else if is_quote(b[i]) {
        proof {
            lemma_string_end(b, b[i], i + 1);
        }
        finds_default_export(b, string_end(b, b[i], i + 1), Some(i))
    } else if b[i] == '/' && regex_may_start(b, prev) {
        proof {
            lemma_regex_end(b, i + 1, false);
        }
        finds_default_export(b, regex_end(b, i + 1, false), Some(i))
    } else if !is_ident_start(b[i]) {
        finds_default_export(b, i + 1, if is_ws(b[i]) { prev } else { Some(i) })
    } else {
        proof {
            lemma_ident_end(b, i + 1);
        }
        let j = ident_end(b, i);
        if b.subrange(i, j) == KW_EXPORT@ && declares_default(b, j) {
            true
        } else {
            finds_default_export(b, j, Some(j - 1))
        }
    }
}

/// Whether `source` declares a runtime default export.
///
/// Route validation needs this to tell a real page from a module that only
/// exports helpers. A plain `contains("export default")` answers wrongly in
/// both directions: it rejects `export { Page as default }` and
/// `export * as default from './page'`, which are valid default exports, and it
/// accepts a commented-out or quoted occurrence. This reuses the comment- and
/// string-skipping scanner, so the answer comes from the same view of the
/// source the resolver and transformer share.
pub fn has_default_export(source: &str) -> (r: bool)
    requires
        fits(source@.len() as int),
    ensures
        r == finds_default_export(source@, 0, None),
{
    let v = str_chars(source);
    let end = v.len();
    let ghost b = bound(v@, end as int);
    assert(b =~= source@);
    let mut index: usize = 0;
    let mut previous_significant: Option<usize> = None;
    while index < end
        invariant
            index <= end == v.len(),
            fits(end as int),
            b == bound(v@, end as int),
            b == source@,
            previous_significant matches Some(p) ==> p < end,
            finds_default_export(b, 0, None) == finds_default_export(
                b,
                index as int,
                opt_int(previous_significant),
            ),
        decreases end - index,
    {
        if comment_start_at(&v, end, index) {
            index = skip_comment(&v, end, index);
            continue;
        }
        if v[index] == '`' {
            // An `export` cannot appear inside an interpolation, but the
            // literal's extent still has to be measured the same way the
            // dependency scanner measures it, or the two disagree about where
            // code resumes.
            previous_significant = Some(index);
            let (after, _) = template_literal(&v, end, index);
            index = after;
            continue;
        }
        if quote_char(v[index]) {
            let quote_start = index;
            index = skip_string(&v, end, index);
            previous_significant = Some(quote_start);
            continue;
        }
        if v[index] == '/' && regex_can_start(&v, end, previous_significant) {
            let slash = index;
            index = skip_regex_literal(&v, end, index);
            previous_significant = Some(slash);
            continue;
        }
        if !ident_start_char(v[index]) {
            if !ws_char(v[index]) {
                previous_significant = Some(index);
            }
            index += 1;
            continue;
        }
        let word_start = index;
        index = skip_identifier(&v, end, index);
        proof {
            lemma_ident_end(b, word_start + 1);
        }
        previous_significant = Some(index - 1);
        assert(b.subrange(word_start as int, index as int) =~= v@.subrange(
            word_start as int,
            index as int,
        ));
        if range_is(&v, word_start, index, &KW_EXPORT) && export_declares_default(&v, end, index) {
            return true;
        }
    }
    false
}

// ─── What the facts are made of ──────────────────────────────────────────────

/// `x` stands somewhere in `s`, character for character.
pub open spec fn in_text(x: Seq<char>, s: Seq<char>) -> bool {
    exists|a: int, z: int| 0 <= a <= z <= s.len() && #[trigger] s.subrange(a, z) == x
}

/// Every import specifier and every export name of `m` stands in `s`.
pub open spec fn facts_within(m: AstFacts, s: Seq<char>) -> bool {
    &&& forall|k: int| 0 <= k < m.imports.len() ==> in_text(#[trigger] m.imports[k].0, s)
    &&& forall|k: int| 0 <= k < m.exports.len() ==> in_text(#[trigger] m.exports[k], s)
}

proof fn lemma_subrange_in(b: Seq<char>, a: int, z: int)
    requires
        0 <= a <= z <= b.len(),
    ensures
        in_text(b.subrange(a, z), b),
{
    assert(b.subrange(a, z) == b.subrange(a, z));
}

proof fn lemma_in_prefix(x: Seq<char>, s: Seq<char>, end: int)
    requires
        0 <= end <= s.len(),
        in_text(x, bound(s, end)),
    ensures
        in_text(x, s),
{
    let b = bound(s, end);
    let (a, z) = choose|a: int, z: int| 0 <= a <= z <= b.len() && #[trigger] b.subrange(a, z) == x;
    assert(s.subrange(a, z) =~= b.subrange(a, z));
}

proof fn lemma_quoted_in(b: Seq<char>, start: int)
    ensures
        quoted_value(b, start) matches Some(x) ==> in_text(x, b),
{
    if quoted_value(b, start) is Some {
        lemma_quoted_close(b, b[start], start + 1);
        let k = quoted_close(b, b[start], start + 1)->Some_0;
        lemma_subrange_in(b, start + 1, k);
    }
}

proof fn lemma_find_from_in(b: Seq<char>, i: int)
    ensures
        find_from(b, i) matches Some(x) ==> in_text(x, b),
    decreases b.len() + 1 - i,
{
    if 0 <= i < b.len() {
        let j = skip_trivia(b, i);
        lemma_skip_trivia(b, i);
        if j >= b.len() || b[j] == ';' {
        } else if is_quote(b[j]) {
            lemma_string_end(b, b[j], j + 1);
            lemma_find_from_in(b, string_end(b, b[j], j + 1));
        } else if word_at(b, j) == Some(KW_FROM@) {
            lemma_quoted_in(b, skip_trivia(b, j + 4));
        } else {
            lemma_find_from_in(b, j + 1);
        }
    }
}

proof fn lemma_call_value_in(b: Seq<char>, after: int)
    ensures
        call_value(b, after) matches Some(x) ==> in_text(x, b),
{
    lemma_quoted_in(b, skip_trivia(b, skip_trivia(b, after) + 1));
}

proof fn lemma_word_effect_within(s: Seq<char>, end: int, start: int, stop: int, m: AstFacts)
    requires
        0 <= end <= s.len(),
        facts_within(m, s),
    ensures
        facts_within(word_effect(bound(s, end), start, stop, m), s),
{
    let b = bound(s, end);
    let w = b.subrange(start, stop);
    if w == KW_IMPORT@ {
        let e = import_edge_spec(b, stop);
        let i = skip_trivia(b, stop);
        lemma_call_value_in(b, i);
        lemma_quoted_in(b, i);
        lemma_find_from_in(b, i);
        if e is Some {
            lemma_in_prefix(e->Some_0.0, s, end);
            let m2 = add_import(m, e);
            assert forall|k: int| 0 <= k < m2.imports.len() implies in_text(#[trigger] m2.imports[k].0, s) by {
                if k < m.imports.len() {
                    assert(m2.imports[k] == m.imports[k]);
                }
            }
        }
    } else if w == KW_REQUIRE@ && previous_non_ws(b, start) != Some('.') {
        let e = with_kind(call_value(b, stop), ImportKind::Require);
        lemma_call_value_in(b, stop);
        if e is Some {
            lemma_in_prefix(e->Some_0.0, s, end);
            let m2 = add_import(m, e);
            assert forall|k: int| 0 <= k < m2.imports.len() implies in_text(#[trigger] m2.imports[k].0, s) by {
                if k < m.imports.len() {
                    assert(m2.imports[k] == m.imports[k]);
                }
            }
        }
    } else if w == KW_EXPORT@ {
        let e = export_edge_spec(b, stop);
        lemma_find_from_in(b, skip_trivia(b, stop));
        let m1 = add_import(m, e);
        if e is Some {
            lemma_in_prefix(e->Some_0.0, s, end);
            assert forall|k: int| 0 <= k < m1.imports.len() implies in_text(#[trigger] m1.imports[k].0, s) by {
                if k < m.imports.len() {
                    assert(m1.imports[k] == m.imports[k]);
                }
            }
        }
        assert(facts_within(m1, s));
        match export_name_spec(b, stop) {
            Some(name) => {
                let i0 = skip_trivia(b, stop);
                let i1 = if word_at(b, i0) == Some(KW_DEFAULT@) {
                    skip_trivia(b, i0 + 7)
                } else {
                    i0
                };
                let i2 = if word_at(b, i1) == Some(KW_ASYNC@) {
                    skip_trivia(b, i1 + 5)
                } else {
                    i1
                };
                let kind = word_at(b, i2)->Some_0;
                let i3 = skip_trivia(b, i2 + kind.len());
                let i4 = if i3 < b.len() && b[i3] == '*' {
                    skip_trivia(b, i3 + 1)
                } else {
                    i3
                };
                if i4 >= 0 {
                    lemma_ident_end(b, i4);
                }
                let z = ident_end(b, i4);
                assert(name == b.subrange(i4, z));
                lemma_subrange_in(b, i4, z);
                lemma_in_prefix(name, s, end);
                let m2 = add_export(m1, name);
                assert forall|k: int| 0 <= k < m2.exports.len() implies in_text(#[trigger] m2.exports[k], s) by {
                    if k < m1.exports.len() {
                        assert(m2.exports[k] == m1.exports[k]);
                    }
                }
            },
            None => {},
        }
    }
}

proof fn lemma_scan_range_within(s: Seq<char>, end: int, i: int, prev: Option<int>, m: AstFacts)
    requires
        facts_within(m, s),
    ensures
        facts_within(scan_range(s, end, i, prev, m), s),
    decreases end + 1 - i, 1int, 0int,
{
    if end < 0 || end > s.len() || i < 0 || i >= end {
    } else {
        let b = bound(s, end);
        if is_comment_start(b, i) {
            lemma_comment_end(b, i);
            lemma_scan_range_within(s, end, comment_end(b, i), prev, m);
        } else if b[i] == '`' {
            let t = template_scan(b, i + 1, Seq::empty());
            lemma_scan_interpolations_within(s, end, i, t.1, 0, m);
            let m2 = scan_interpolations(s, end, i, t.1, 0, m);
            if i < t.0 <= end {
                lemma_scan_range_within(s, end, t.0, Some(i), m2);
            }
        } else if is_quote(b[i]) {
            lemma_string_end(b, b[i], i + 1);
            lemma_scan_range_within(s, end, string_end(b, b[i], i + 1), Some(i), m);
        } else if b[i] == '/' && regex_may_start(b, prev) {
            lemma_regex_end(b, i + 1, false);
            lemma_scan_range_within(s, end, regex_end(b, i + 1, false), Some(i), m);
        } else if b[i] == '@' && line_prefix_ws(b, i) {
            lemma_scan_range_within(s, end, i + 1, Some(i), AstFacts { has_decorators: true, ..m });
        } else {
            let m1 = if b[i] == '<' && looks_like_jsx(b, i) {
                AstFacts { has_jsx: true, ..m }
            } else {
                m
            };
            if !is_ident_start(b[i]) {
                lemma_scan_range_within(s, end, i + 1, if is_ws(b[i]) { prev } else { Some(i) }, m1);
            } else {
                lemma_ident_end(b, i + 1);
                let j = ident_end(b, i);
                lemma_word_effect_within(s, end, i, j, m1);
                lemma_scan_range_within(s, end, j, Some(j - 1), word_effect(b, i, j, m1));
            }
        }
    }
}

proof fn lemma_scan_interpolations_within(
    s: Seq<char>,
    end: int,
    lo: int,
    ranges: Seq<(int, int)>,
    k: int,
    m: AstFacts,
)
    requires
        facts_within(m, s),
    ensures
        facts_within(scan_interpolations(s, end, lo, ranges, k, m), s),
    decreases end + 1 - lo, 0int, ranges.len() - k,
{
    if 0 <= k < ranges.len() {
        let cs = ranges[k].0;
        let ce = ranges[k].1;
        if lo < cs && cs <= ce && ce <= end {
            lemma_scan_range_within(s, ce, cs, None, m);
        }
        let m1 = if lo < cs && cs <= ce && ce <= end {
            scan_range(s, ce, cs, None, m)
        } else {
            m
        };
        lemma_scan_interpolations_within(s, end, lo, ranges, k + 1, m1);
    }
}

/// Every import specifier and every export name `parse_module` reports is
/// text of the source itself, whatever the source holds: nothing is made up.
pub proof fn law_every_specifier_and_export_is_source_text(source: Seq<char>)
    ensures
        facts_within(scan_range(source, source.len() as int, 0, None, no_facts()), source),
{
    lemma_scan_range_within(source, source.len() as int, 0, None, no_facts());
}

// ─── Star re-exports ─────────────────────────────────────────────────────────

/// `later` holds every import edge of `earlier`, first and in order.
pub open spec fn keeps_imports(earlier: AstFacts, later: AstFacts) -> bool {
    &&& earlier.imports.len() <= later.imports.len()
    &&& later.imports.subrange(0, earlier.imports.len() as int) == earlier.imports
}

proof fn lemma_keeps_trans(a: AstFacts, b: AstFacts, c: AstFacts)
    requires
        keeps_imports(a, b),
        keeps_imports(b, c),
    ensures
        keeps_imports(a, c),
{
    assert(c.imports.subrange(0, a.imports.len() as int) =~= c.imports.subrange(
        0,
        b.imports.len() as int,
    ).subrange(0, a.imports.len() as int));
}

proof fn lemma_keeps_push(m: AstFacts, e: Option<(Seq<char>, ImportKind)>)
    ensures
        keeps_imports(m, add_import(m, e)),
{
    assert(add_import(m, e).imports.subrange(0, m.imports.len() as int) =~= m.imports);
}

proof fn lemma_keeps_self(m: AstFacts)
    ensures
        keeps_imports(m, m),
{
    assert(m.imports.subrange(0, m.imports.len() as int) =~= m.imports);
}

proof fn lemma_word_effect_keeps(b: Seq<char>, start: int, stop: int, m: AstFacts)
    ensures
        keeps_imports(m, word_effect(b, start, stop, m)),
{
    let w = b.subrange(start, stop);
    lemma_keeps_self(m);
    if w == KW_IMPORT@ {
        lemma_keeps_push(m, import_edge_spec(b, stop));
    } else if w == KW_REQUIRE@ && previous_non_ws(b, start) != Some('.') {
        lemma_keeps_push(m, with_kind(call_value(b, stop), ImportKind::Require));
    } else if w == KW_EXPORT@ {
        let m1 = add_import(m, export_edge_spec(b, stop));
        lemma_keeps_push(m, export_edge_spec(b, stop));
        match export_name_spec(b, stop) {
            Some(name) => {
                assert(add_export(m1, name).imports == m1.imports);
            },
            None => {},
        }
    } else if w == KW_PROCESS@ {
        match env_read_spec(b, stop) {
            Some(name) => {
                assert(add_env_read(m, name).imports == m.imports);
            },
            None => {},
        }
    }
}

proof fn lemma_scan_range_keeps(s: Seq<char>, end: int, i: int, prev: Option<int>, m: AstFacts)
    ensures
        keeps_imports(m, scan_range(s, end, i, prev, m)),
    decreases end + 1 - i, 1int, 0int,
{
    lemma_keeps_self(m);
    if end < 0 || end > s.len() || i < 0 || i >= end {
    } else {
        let b = bound(s, end);
        if is_comment_start(b, i) {
            lemma_comment_end(b, i);
            lemma_scan_range_keeps(s, end, comment_end(b, i), prev, m);
        } else if b[i] == '`' {
            let t = template_scan(b, i + 1, Seq::empty());
            lemma_scan_interpolations_keeps(s, end, i, t.1, 0, m);
            let m2 = scan_interpolations(s, end, i, t.1, 0, m);
            if i < t.0 <= end {
                lemma_scan_range_keeps(s, end, t.0, Some(i), m2);
                lemma_keeps_trans(m, m2, scan_range(s, end, t.0, Some(i), m2));
            }
        } else if is_quote(b[i]) {
            lemma_string_end(b, b[i], i + 1);
            lemma_scan_range_keeps(s, end, string_end(b, b[i], i + 1), Some(i), m);
        } else if b[i] == '/' && regex_may_start(b, prev) {
            lemma_regex_end(b, i + 1, false);
            lemma_scan_range_keeps(s, end, regex_end(b, i + 1, false), Some(i), m);
        } else if b[i] == '@' && line_prefix_ws(b, i) {
            let m1 = AstFacts { has_decorators: true, ..m };
            lemma_keeps_self(m1);
            lemma_scan_range_keeps(s, end, i + 1, Some(i), m1);
        } else {
            let m1 = if b[i] == '<' && looks_like_jsx(b, i) {
                AstFacts { has_jsx: true, ..m }
            } else {
                m
            };
            lemma_keeps_self(m1);
            if !is_ident_start(b[i]) {
                lemma_scan_range_keeps(s, end, i + 1, if is_ws(b[i]) { prev } else { Some(i) }, m1);
            } else {
                lemma_ident_end(b, i + 1);
                let j = ident_end(b, i);
                let m2 = word_effect(b, i, j, m1);
                lemma_word_effect_keeps(b, i, j, m1);
                lemma_scan_range_keeps(s, end, j, Some(j - 1), m2);
                lemma_keeps_trans(m1, m2, scan_range(s, end, j, Some(j - 1), m2));
            }
        }
    }
}

proof fn lemma_scan_interpolations_keeps(
    s: Seq<char>,
    end: int,
    lo: int,
    ranges: Seq<(int, int)>,
    k: int,
    m: AstFacts,
)
    ensures
        keeps_imports(m, scan_interpolations(s, end, lo, ranges, k, m)),
    decreases end + 1 - lo, 0int, ranges.len() - k,
{
    lemma_keeps_self(m);
    if 0 <= k < ranges.len() {
        let cs = ranges[k].0;
        let ce = ranges[k].1;
        let m1 = if lo < cs && cs <= ce && ce <= end {
            scan_range(s, ce, cs, None, m)
        } else {
            m
        };
        if lo < cs && cs <= ce && ce <= end {
            lemma_scan_range_keeps(s, ce, cs, None, m);
        }
        lemma_scan_interpolations_keeps(s, end, lo, ranges, k + 1, m1);
        lemma_keeps_trans(m, m1, scan_interpolations(s, end, lo, ranges, k + 1, m1));
    }
}

proof fn lemma_quoted_run(b: Seq<char>, q: char, i: int, k: int)
    requires
        0 <= i <= k < b.len(),
        b[k] == q,
        q != '\\',
        forall|j: int| i <= j < k ==> #[trigger] b[j] != q && b[j] != '\\',
    ensures
        quoted_close(b, q, i) == Some(k),
    decreases k - i,
{
    if i < k {
        assert(b[i] != q && b[i] != '\\');
        lemma_quoted_run(b, q, i + 1, k);
    }
}

/// The source text `export * from "S"` followed by anything.
pub open spec fn star_reexport_source(specifier: Seq<char>, rest: Seq<char>) -> Seq<char> {
    seq!['e', 'x', 'p', 'o', 'r', 't', ' ', '*', ' ', 'f', 'r', 'o', 'm', ' ', '"'] + specifier + seq!['"']
        + rest
}

/// A star re-export records its specifier as a re-export edge, as a braced
/// one does: scanning `export * from "S"`, whatever follows it, yields the
/// edge `(S, ReExport)` first.
pub proof fn law_a_star_reexport_records_its_specifier(specifier: Seq<char>, rest: Seq<char>)
    requires
        forall|k: int| 0 <= k < specifier.len() ==> #[trigger] specifier[k] != '"' && specifier[k] != '\\',
    ensures
        ({
            let s = star_reexport_source(specifier, rest);
            let facts = scan_range(s, s.len() as int, 0, None, no_facts());
            facts.imports.len() > 0 && facts.imports[0] == (specifier, ImportKind::ReExport)
        }),
{
    let s = star_reexport_source(specifier, rest);
    let n = specifier.len() as int;
    let b = bound(s, s.len() as int);
    assert(b =~= s);
    assert(s[0] == 'e' && s[1] == 'x' && s[2] == 'p' && s[3] == 'o' && s[4] == 'r' && s[5] == 't');
    assert(s[6] == ' ' && s[7] == '*' && s[8] == ' ');
    assert(s[9] == 'f' && s[10] == 'r' && s[11] == 'o' && s[12] == 'm' && s[13] == ' ' && s[14] == '"');
    assert forall|j: int| 15 <= j < 15 + n implies #[trigger] s[j] == specifier[j - 15] by {}
    assert(s[15 + n] == '"');
    // `export` is the first word.
    assert(ident_end(b, 6) == 6);
    assert(ident_end(b, 5) == 6);
    assert(ident_end(b, 4) == 6);
    assert(ident_end(b, 3) == 6);
    assert(ident_end(b, 2) == 6);
    assert(ident_end(b, 1) == 6);
    assert(ident_end(b, 0) == 6);
    assert(b.subrange(0, 6) =~= KW_EXPORT@);
    assert(b.subrange(0, 6)[0] != KW_IMPORT@[0]);
    assert(b.subrange(0, 6).len() != KW_REQUIRE@.len());
    // The star and the `from` clause.
    assert(ws_end(b, 7) == 7);
    assert(ws_end(b, 6) == 7);
    assert(skip_trivia(b, 6) == 7);
    assert(skip_trivia(b, 7) == 7);
    assert(word_at(b, 7) is None);
    assert(ws_end(b, 9) == 9);
    assert(ws_end(b, 8) == 9);
    assert(skip_trivia(b, 8) == 9);
    assert(ident_end(b, 13) == 13);
    assert(ident_end(b, 12) == 13);
    assert(ident_end(b, 11) == 13);
    assert(ident_end(b, 10) == 13);
    assert(ident_end(b, 9) == 13);
    assert(b.subrange(9, 13) =~= KW_FROM@);
    assert(word_at(b, 9) == Some(KW_FROM@));
    assert(ws_end(b, 14) == 14);
    assert(ws_end(b, 13) == 14);
    assert(skip_trivia(b, 13) == 14);
    lemma_quoted_run(b, '"', 15, 15 + n);
    assert(b.subrange(15, 15 + n) =~= specifier);
    assert(quoted_value(b, 14) == Some(specifier));
    assert(find_from(b, 8) == Some(specifier));
    assert(find_from(b, 7) == Some(specifier));
    assert(export_edge_spec(b, 6) == Some((specifier, ImportKind::ReExport)));
    let m = word_effect(b, 0, 6, no_facts());
    let m1 = add_import(no_facts(), export_edge_spec(b, 6));
    assert(m1.imports =~= seq![(specifier, ImportKind::ReExport)]);
    match export_name_spec(b, 6) {
        Some(name) => {
            assert(m == add_export(m1, name));
        },
        None => {
            assert(m == m1);
        },
    }
    assert(m.imports == seq![(specifier, ImportKind::ReExport)]);
    assert(!is_comment_start(b, 0));
    assert(scan_range(s, s.len() as int, 0, None, no_facts()) == scan_range(s, s.len() as int, 6, Some(5), m));
    lemma_scan_range_keeps(s, s.len() as int, 6, Some(5), m);
    let r = scan_range(s, s.len() as int, 6, Some(5), m);
    assert(r.imports.subrange(0, 1)[0] == r.imports[0]);
}

proof fn lemma_scan_from_first_word(s: Seq<char>)
    requires
        s.len() > 0,
        is_alpha(s[0]),
    ensures
        ({
            let b = bound(s, s.len() as int);
            let j = ident_end(b, 0);
            keeps_imports(word_effect(b, 0, j, no_facts()), scan_range(s, s.len() as int, 0, None, no_facts()))
        }),
{
    let b = bound(s, s.len() as int);
    assert(b =~= s);
    lemma_ident_end(b, 1);
    let j = ident_end(b, 0);
    assert(!is_comment_start(b, 0));
    assert(scan_range(s, s.len() as int, 0, None, no_facts()) == scan_range(
        s,
        s.len() as int,
        j,
        Some(j - 1),
        word_effect(b, 0, j, no_facts()),
    ));
    lemma_scan_range_keeps(s, s.len() as int, j, Some(j - 1), word_effect(b, 0, j, no_facts()));
}

proof fn lemma_first_import(s: Seq<char>, e: (Seq<char>, ImportKind))
    requires
        s.len() > 0,
        is_alpha(s[0]),
        word_effect(bound(s, s.len() as int), 0, ident_end(bound(s, s.len() as int), 0), no_facts()).imports
            == seq![e],
    ensures
        scan_range(s, s.len() as int, 0, None, no_facts()).imports.len() > 0,
        scan_range(s, s.len() as int, 0, None, no_facts()).imports[0] == e,
{
    lemma_scan_from_first_word(s);
    let r = scan_range(s, s.len() as int, 0, None, no_facts());
    assert(r.imports.subrange(0, 1)[0] == r.imports[0]);
}

/// The source text `import x from "S"` followed by anything.
pub open spec fn static_import_source(specifier: Seq<char>, rest: Seq<char>) -> Seq<char> {
    seq!['i', 'm', 'p', 'o', 'r', 't', ' ', 'x', ' ', 'f', 'r', 'o', 'm', ' ', '"'] + specifier + seq!['"']
        + rest
}

/// A default import records its specifier as a static edge: scanning
/// `import x from "S"`, whatever follows it, yields `(S, Static)` first.
pub proof fn law_a_static_import_records_its_specifier(specifier: Seq<char>, rest: Seq<char>)
    requires
        forall|k: int| 0 <= k < specifier.len() ==> #[trigger] specifier[k] != '"' && specifier[k] != '\\',
    ensures
        ({
            let s = static_import_source(specifier, rest);
            let facts = scan_range(s, s.len() as int, 0, None, no_facts());
            facts.imports.len() > 0 && facts.imports[0] == (specifier, ImportKind::Static)
        }),
{
    let s = static_import_source(specifier, rest);
    let n = specifier.len() as int;
    let b = bound(s, s.len() as int);
    assert(b =~= s);
    assert(s[0] == 'i' && s[1] == 'm' && s[2] == 'p' && s[3] == 'o' && s[4] == 'r' && s[5] == 't');
    assert(s[6] == ' ' && s[7] == 'x' && s[8] == ' ');
    assert(s[9] == 'f' && s[10] == 'r' && s[11] == 'o' && s[12] == 'm' && s[13] == ' ' && s[14] == '"');
    assert(s[15 + n] == '"');
    assert(ident_end(b, 6) == 6);
    assert(ident_end(b, 5) == 6);
    assert(ident_end(b, 4) == 6);
    assert(ident_end(b, 3) == 6);
    assert(ident_end(b, 2) == 6);
    assert(ident_end(b, 1) == 6);
    assert(ident_end(b, 0) == 6);
    assert(b.subrange(0, 6) =~= KW_IMPORT@);
    assert(ws_end(b, 7) == 7);
    assert(ws_end(b, 6) == 7);
    assert(skip_trivia(b, 6) == 7);
    assert(skip_trivia(b, 7) == 7);
    assert(ident_end(b, 8) == 8);
    assert(ident_end(b, 7) == 8);
    assert(b.subrange(7, 8) =~= seq!['x']);
    assert(word_at(b, 7) == Some(seq!['x']));
    assert(seq!['x'] != KW_TYPE@ && seq!['x'] != KW_FROM@) by {
        assert(KW_TYPE@.len() == 4);
        assert(KW_FROM@.len() == 4);
    }
    assert(ws_end(b, 9) == 9);
    assert(ws_end(b, 8) == 9);
    assert(skip_trivia(b, 8) == 9);
    assert(ident_end(b, 13) == 13);
    assert(ident_end(b, 12) == 13);
    assert(ident_end(b, 11) == 13);
    assert(ident_end(b, 10) == 13);
    assert(ident_end(b, 9) == 13);
    assert(b.subrange(9, 13) =~= KW_FROM@);
    assert(word_at(b, 9) == Some(KW_FROM@));
    assert(ws_end(b, 14) == 14);
    assert(ws_end(b, 13) == 14);
    assert(skip_trivia(b, 13) == 14);
    assert forall|j: int| 15 <= j < 15 + n implies #[trigger] b[j] != '"' && b[j] != '\\' by {
        assert(b[j] == specifier[j - 15]);
    }
    lemma_quoted_run(b, '"', 15, 15 + n);
    assert(b.subrange(15, 15 + n) =~= specifier);
    assert(quoted_value(b, 14) == Some(specifier));
    assert(find_from(b, 8) == Some(specifier));
    assert(find_from(b, 7) == Some(specifier));
    assert(import_edge_spec(b, 6) == Some((specifier, ImportKind::Static)));
    assert(word_effect(b, 0, 6, no_facts()).imports =~= seq![(specifier, ImportKind::Static)]);
    lemma_first_import(s, (specifier, ImportKind::Static));
}

/// The source text `import "S"` followed by anything.
pub open spec fn side_effect_import_source(specifier: Seq<char>, rest: Seq<char>) -> Seq<char> {
    seq!['i', 'm', 'p', 'o', 'r', 't', ' ', '"'] + specifier + seq!['"'] + rest
}

/// A bare import records its specifier as a side-effect edge: scanning
/// `import "S"`, whatever follows it, yields `(S, SideEffect)` first.
pub proof fn law_a_side_effect_import_records_its_specifier(specifier: Seq<char>, rest: Seq<char>)
    requires
        forall|k: int| 0 <= k < specifier.len() ==> #[trigger] specifier[k] != '"' && specifier[k] != '\\',
    ensures
        ({
            let s = side_effect_import_source(specifier, rest);
            let facts = scan_range(s, s.len() as int, 0, None, no_facts());
            facts.imports.len() > 0 && facts.imports[0] == (specifier, ImportKind::SideEffect)
        }),
{
    let s = side_effect_import_source(specifier, rest);
    let n = specifier.len() as int;
    let b = bound(s, s.len() as int);
    assert(b =~= s);
    assert(s[0] == 'i' && s[1] == 'm' && s[2] == 'p' && s[3] == 'o' && s[4] == 'r' && s[5] == 't');
    assert(s[6] == ' ' && s[7] == '"');
    assert(s[8 + n] == '"');
    assert(ident_end(b, 6) == 6);
    assert(ident_end(b, 5) == 6);
    assert(ident_end(b, 4) == 6);
    assert(ident_end(b, 3) == 6);
    assert(ident_end(b, 2) == 6);
    assert(ident_end(b, 1) == 6);
    assert(ident_end(b, 0) == 6);
    assert(b.subrange(0, 6) =~= KW_IMPORT@);
    assert(ws_end(b, 7) == 7);
    assert(ws_end(b, 6) == 7);
    assert(skip_trivia(b, 6) == 7);
    assert forall|j: int| 8 <= j < 8 + n implies #[trigger] b[j] != '"' && b[j] != '\\' by {
        assert(b[j] == specifier[j - 8]);
    }
    lemma_quoted_run(b, '"', 8, 8 + n);
    assert(b.subrange(8, 8 + n) =~= specifier);
    assert(quoted_value(b, 7) == Some(specifier));
    assert(import_edge_spec(b, 6) == Some((specifier, ImportKind::SideEffect)));
    assert(word_effect(b, 0, 6, no_facts()).imports =~= seq![(specifier, ImportKind::SideEffect)]);
    lemma_first_import(s, (specifier, ImportKind::SideEffect));
}

/// The source text `import("S")` followed by anything.
pub open spec fn dynamic_import_source(specifier: Seq<char>, rest: Seq<char>) -> Seq<char> {
    seq!['i', 'm', 'p', 'o', 'r', 't', '(', '"'] + specifier + seq!['"', ')'] + rest
}

/// A dynamic import records its specifier as a dynamic edge: scanning
/// `import("S")`, whatever follows it, yields `(S, Dynamic)` first.
pub proof fn law_a_dynamic_import_records_its_specifier(specifier: Seq<char>, rest: Seq<char>)
    requires
        forall|k: int| 0 <= k < specifier.len() ==> #[trigger] specifier[k] != '"' && specifier[k] != '\\',
    ensures
        ({
            let s = dynamic_import_source(specifier, rest);
            let facts = scan_range(s, s.len() as int, 0, None, no_facts());
            facts.imports.len() > 0 && facts.imports[0] == (specifier, ImportKind::Dynamic)
        }),
{
    let s = dynamic_import_source(specifier, rest);
    let n = specifier.len() as int;
    let b = bound(s, s.len() as int);
    assert(b =~= s);
    assert(s[0] == 'i' && s[1] == 'm' && s[2] == 'p' && s[3] == 'o' && s[4] == 'r' && s[5] == 't');
    assert(s[6] == '(' && s[7] == '"');
    assert(s[8 + n] == '"');
    assert(ident_end(b, 6) == 6);
    assert(ident_end(b, 5) == 6);
    assert(ident_end(b, 4) == 6);
    assert(ident_end(b, 3) == 6);
    assert(ident_end(b, 2) == 6);
    assert(ident_end(b, 1) == 6);
    assert(ident_end(b, 0) == 6);
    assert(b.subrange(0, 6) =~= KW_IMPORT@);
    assert(ws_end(b, 6) == 6);
    assert(skip_trivia(b, 6) == 6);
    assert(ws_end(b, 7) == 7);
    assert(skip_trivia(b, 7) == 7);
    assert forall|j: int| 8 <= j < 8 + n implies #[trigger] b[j] != '"' && b[j] != '\\' by {
        assert(b[j] == specifier[j - 8]);
    }
    lemma_quoted_run(b, '"', 8, 8 + n);
    assert(b.subrange(8, 8 + n) =~= specifier);
    assert(quoted_value(b, 7) == Some(specifier));
    assert(call_value(b, 6) == Some(specifier));
    assert(import_edge_spec(b, 6) == Some((specifier, ImportKind::Dynamic)));
    assert(word_effect(b, 0, 6, no_facts()).imports =~= seq![(specifier, ImportKind::Dynamic)]);
    lemma_first_import(s, (specifier, ImportKind::Dynamic));
}

/// The source text `require("S")` followed by anything.
pub open spec fn require_source(specifier: Seq<char>, rest: Seq<char>) -> Seq<char> {
    seq!['r', 'e', 'q', 'u', 'i', 'r', 'e', '(', '"'] + specifier + seq!['"', ')'] + rest
}

/// A `require` call records its specifier as a require edge: scanning
/// `require("S")`, whatever follows it, yields `(S, Require)` first.
pub proof fn law_a_require_call_records_its_specifier(specifier: Seq<char>, rest: Seq<char>)
    requires
        forall|k: int| 0 <= k < specifier.len() ==> #[trigger] specifier[k] != '"' && specifier[k] != '\\',
    ensures
        ({
            let s = require_source(specifier, rest);
            let facts = scan_range(s, s.len() as int, 0, None, no_facts());
            facts.imports.len() > 0 && facts.imports[0] == (specifier, ImportKind::Require)
        }),
{
    let s = require_source(specifier, rest);
    let n = specifier.len() as int;
    let b = bound(s, s.len() as int);
    assert(b =~= s);
    assert(s[0] == 'r' && s[1] == 'e' && s[2] == 'q' && s[3] == 'u' && s[4] == 'i' && s[5] == 'r'
        && s[6] == 'e');
    assert(s[7] == '(' && s[8] == '"');
    assert(s[9 + n] == '"');
    assert(ident_end(b, 7) == 7);
    assert(ident_end(b, 6) == 7);
    assert(ident_end(b, 5) == 7);
    assert(ident_end(b, 4) == 7);
    assert(ident_end(b, 3) == 7);
    assert(ident_end(b, 2) == 7);
    assert(ident_end(b, 1) == 7);
    assert(ident_end(b, 0) == 7);
    assert(b.subrange(0, 7) =~= KW_REQUIRE@);
    assert(b.subrange(0, 7).len() != KW_IMPORT@.len());
    assert(previous_non_ws(b, 0) is None);
    assert(ws_end(b, 7) == 7);
    assert(skip_trivia(b, 7) == 7);
    assert(ws_end(b, 8) == 8);
    assert(skip_trivia(b, 8) == 8);
    assert forall|j: int| 9 <= j < 9 + n implies #[trigger] b[j] != '"' && b[j] != '\\' by {
        assert(b[j] == specifier[j - 9]);
    }
    lemma_quoted_run(b, '"', 9, 9 + n);
    assert(b.subrange(9, 9 + n) =~= specifier);
    assert(quoted_value(b, 8) == Some(specifier));
    assert(call_value(b, 7) == Some(specifier));
    assert(word_effect(b, 0, 7, no_facts()).imports =~= seq![(specifier, ImportKind::Require)]);
    lemma_first_import(s, (specifier, ImportKind::Require));
}

} // verus!
