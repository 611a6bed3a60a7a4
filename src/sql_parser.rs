use vstd::prelude::*;

use crate::error::DbError;
use vstd::std_specs::iter::IteratorSpec;
use vstd::string::StrSliceExecFns;

verus! {

/// What a SELECT statement asks for.
#[derive(Debug)]
pub enum Selector {
    /// `COUNT(*)`: the number of rows.
    CountAll,
    /// The named columns, in order.
    Columns(Vec<String>),
}

/// A parsed `SELECT <selector> FROM <table> [WHERE <column> = <literal>]`.
#[derive(Debug)]
pub struct SelectStatement {
    pub selector: Selector,
    pub from: String,
    /// The column and the literal of the equality filter, if any.
    pub condition: Option<(String, String)>,
}

/// A selector as values: `None` for `COUNT(*)`, else the column names.
pub open spec fn selector_view(s: Selector) -> Option<Seq<Seq<char>>> {
    match s {
        Selector::CountAll => None,
        Selector::Columns(cols) => Some(cols@.map_values(|c: String| c@)),
    }
}

/// A statement as values: selector, table name, filter.
pub type StatementView = (Option<Seq<Seq<char>>>, Seq<char>, Option<(Seq<char>, Seq<char>)>);

pub open spec fn statement_view(st: SelectStatement) -> StatementView {
    (
        selector_view(st.selector),
        st.from@,
        match st.condition {
            Some((c, l)) => Some((c@, l@)),
            None => None,
        },
    )
}

pub open spec fn is_ws(c: char) -> bool {
    c == ' ' || c == '\t' || c == '\n' || c == '\r'
}

pub open spec fn is_ident_char(c: char) -> bool {
    ('a' <= c && c <= 'z') || ('A' <= c && c <= 'Z') || ('0' <= c && c <= '9') || c == '_'
}

/// Whether `c` is the lower-case ASCII letter or symbol `k`, in either case.
pub open spec fn eq_ic(c: char, k: char) -> bool {
    c == k || ('a' <= k && k <= 'z' && c as u32 + 32 == k as u32)
}

/// The first index from `i` on, below `to`, that holds no white space (or `to`).
pub open spec fn skip_ws_in(s: Seq<char>, i: nat, to: nat) -> nat
    decreases to - i,
{
    if i < to && i < s.len() && is_ws(s[i as int]) {
        skip_ws_in(s, i + 1, to)
    } else {
        i
    }
}

pub open spec fn skip_ws(s: Seq<char>, i: nat) -> nat {
    skip_ws_in(s, i, s.len())
}

/// The first index from `i` on, below `to`, that holds white space (or `to`).
pub open spec fn word_end(s: Seq<char>, i: nat, to: nat) -> nat
    decreases to - i,
{
    if i < to && i < s.len() && !is_ws(s[i as int]) {
        word_end(s, i + 1, to)
    } else {
        i
    }
}

/// The first index from `i` on that holds no identifier character (or the end).
pub open spec fn ident_end(s: Seq<char>, i: nat) -> nat
    decreases s.len() - i,
{
    if i < s.len() && is_ident_char(s[i as int]) {
        ident_end(s, i + 1)
    } else {
        i
    }
}

/// The first index from `i` on that holds `q` (or the end).
pub open spec fn char_end(s: Seq<char>, i: nat, q: char) -> nat
    decreases s.len() - i,
{
    if i < s.len() && s[i as int] != q {
        char_end(s, i + 1, q)
    } else {
        i
    }
}

/// Whether the keyword `kw` (lower case) stands at index `i`, in any case, as a whole word.
pub open spec fn keyword_at(s: Seq<char>, i: nat, kw: Seq<char>) -> bool {
    &&& i + kw.len() <= s.len()
    &&& forall|k: int| 0 <= k < kw.len() ==> #[trigger] eq_ic(s[i + k], kw[k])
    &&& (i + kw.len() == s.len() || !is_ident_char(s[(i + kw.len()) as int]))
}

/// The first white-space-delimited word of `s[from..to]`.
pub open spec fn first_word(s: Seq<char>, from: nat, to: nat) -> Seq<char> {
    s.subrange(skip_ws_in(s, from, to) as int, word_end(s, skip_ws_in(s, from, to), to) as int)
}

/// The identifier after the white space at `i`, and where it ends.
pub open spec fn ident_at(s: Seq<char>, i: nat) -> Option<(Seq<char>, nat)> {
    let j = skip_ws(s, i);
    let e = ident_end(s, j);
    if e > j {
        Some((s.subrange(j as int, e as int), e))
    } else {
        None
    }
}

/// A comma-separated list of identifiers from `i` on, and where it ends.
pub open spec fn list_at(s: Seq<char>, i: nat) -> Option<(Seq<Seq<char>>, nat)>
    decreases s.len() - i,
{
    match ident_at(s, i) {
        None => None,
        Some((id, j)) => {
            let k = skip_ws(s, j);
            if i < k + 1 && k < s.len() && s[k as int] == ',' {
                match list_at(s, k + 1) {
                    None => None,
                    Some((ids, e)) => Some((seq![id] + ids, e)),
                }
            } else {
                Some((seq![id], j))
            }
        },
    }
}

/// Whether the character after the white space at `i` is `c`; where it ends.
pub open spec fn symbol_at(s: Seq<char>, i: nat, c: char) -> Option<nat> {
    let j = skip_ws(s, i);
    if j < s.len() && s[j as int] == c {
        Some(j + 1)
    } else {
        None
    }
}

/// `COUNT(*)` after the white space at `i`, and where it ends.
pub open spec fn count_at(s: Seq<char>, i: nat) -> Option<nat> {
    let j = skip_ws(s, i);
    if keyword_at(s, j, seq!['c', 'o', 'u', 'n', 't']) {
        match symbol_at(s, j + 5, '(') {
            None => None,
            Some(a) => match symbol_at(s, a, '*') {
                None => None,
                Some(b) => symbol_at(s, b, ')'),
            },
        }
    } else {
        None
    }
}

/// The selector from `i` on, and where it ends.
pub open spec fn selector_at(s: Seq<char>, i: nat) -> Option<(Option<Seq<Seq<char>>>, nat)> {
    match count_at(s, i) {
        Some(e) => Some((None, e)),
        None => match list_at(s, i) {
            Some((cols, e)) => Some((Some(cols), e)),
            None => None,
        },
    }
}

/// `FROM <table>` from `i` on, and where it ends.
pub open spec fn from_at(s: Seq<char>, i: nat) -> Option<(Seq<char>, nat)> {
    let j = skip_ws(s, i);
    if keyword_at(s, j, seq!['f', 'r', 'o', 'm']) {
        ident_at(s, j + 4)
    } else {
        None
    }
}

/// A literal after the white space at `i`: text in single or double quotes
/// (without them), or a bare word; and where it ends.
pub open spec fn literal_at(s: Seq<char>, i: nat) -> Option<(Seq<char>, nat)> {
    let j = skip_ws(s, i);
    if j >= s.len() {
        None
    } else if s[j as int] == '\'' || s[j as int] == '"' {
        let e = char_end(s, j + 1, s[j as int]);
        if e < s.len() {
            Some((s.subrange((j + 1) as int, e as int), e + 1))
        } else {
            None
        }
    } else {
        let e = word_end(s, j, s.len());
        Some((s.subrange(j as int, e as int), e))
    }
}

/// The optional `WHERE <column> = <literal>` from `i` on, and where it ends.
pub open spec fn condition_at(s: Seq<char>, i: nat) -> Option<(Option<(Seq<char>, Seq<char>)>, nat)> {
    let j = skip_ws(s, i);
    if j >= s.len() {
        Some((None, j))
    } else if keyword_at(s, j, seq!['w', 'h', 'e', 'r', 'e']) {
        match ident_at(s, j + 5) {
            None => None,
            Some((col, k)) => match symbol_at(s, k, '=') {
                None => None,
                Some(m) => match literal_at(s, m) {
                    None => None,
                    Some((lit, e)) => Some((Some((col, lit)), e)),
                },
            },
        }
    } else {
        None
    }
}

/// The statement that the text `s` spells, if it matches the grammar.
pub open spec fn select_grammar(s: Seq<char>) -> Option<StatementView> {
    let j = skip_ws(s, 0);
    if keyword_at(s, j, seq!['s', 'e', 'l', 'e', 'c', 't']) {
        match selector_at(s, j + 6) {
            None => None,
            Some((sel, a)) => match from_at(s, a) {
                None => None,
                Some((table, b)) => match condition_at(s, b) {
                    None => None,
                    Some((cond, e)) => if skip_ws(s, e) == s.len() {
                        Some((sel, table, cond))
                    } else {
                        None
                    },
                },
            },
        }
    } else {
        None
    }
}

/// The characters of `s`.
pub fn chars_of(s: &str) -> (r: Vec<char>)
    ensures
        r@ == s@,
{
    let mut r: Vec<char> = Vec::new();
    let mut it = s.chars();
    loop
        invariant
            r@ + it.remaining() == s@,
        ensures
            r@ == s@,
        decreases s@.len() - r@.len(),
    {
        match it.next() {
            Some(c) => {
                r.push(c);
            },
            None => {
                proof {
                    assert(r@ + it.remaining() =~= r@);
                }
                break;
            },
        }
    }
    r
}

/// The column names that a `CREATE TABLE` statement lists: scanning from index
/// `i` of `s` inside the column list, at parenthesis depth `depth`, with the
/// current column definition starting at `start`, the names found so far in `acc`.
pub open spec fn columns_from(s: Seq<char>, i: nat, depth: nat, start: nat, acc: Seq<Seq<char>>) -> Option<
    Seq<Seq<char>>,
>
    decreases s.len() - i,
{
    if i >= s.len() {
        None
    } else if s[i as int] == '(' {
        columns_from(s, i + 1, depth + 1, start, acc)
    } else if s[i as int] == ')' {
        if depth == 0 {
            Some(acc.push(first_word(s, start, i)))
        } else {
            columns_from(s, i + 1, (depth - 1) as nat, start, acc)
        }
    } else if s[i as int] == ',' && depth == 0 {
        columns_from(s, i + 1, 0, i + 1, acc.push(first_word(s, start, i)))
    } else {
        columns_from(s, i + 1, depth, start, acc)
    }
}

/// The column names of the `CREATE TABLE` text `s`: the first word of each
/// comma-separated definition inside the first pair of parentheses.
pub open spec fn table_columns(s: Seq<char>) -> Option<Seq<Seq<char>>> {
    let p = char_end(s, 0, '(');
    if p < s.len() {
        columns_from(s, p + 1, 0, p + 1, Seq::empty())
    } else {
        None
    }
}

/// A list of strings as character sequences.
pub open spec fn strings_view(v: Seq<String>) -> Seq<Seq<char>> {
    v.map_values(|x: String| x@)
}

fn is_ws_char(c: char) -> (r: bool)
    ensures
        r == is_ws(c),
{
    c == ' ' || c == '\t' || c == '\n' || c == '\r'
}

fn is_ident_ch(c: char) -> (r: bool)
    ensures
        r == is_ident_char(c),
{
    ('a' <= c && c <= 'z') || ('A' <= c && c <= 'Z') || ('0' <= c && c <= '9') || c == '_'
}

/// The first index from `i` on, below `to`, that holds no white space.
pub fn skip_whitespace(cs: &Vec<char>, i: usize, to: usize) -> (r: usize)
    requires
        i <= to <= cs@.len(),
    ensures
        r == skip_ws_in(cs@, i as nat, to as nat),
        i <= r <= to,
    decreases to - i,
{
    if i < to && is_ws_char(cs[i]) {
        skip_whitespace(cs, i + 1, to)
    } else {
        i
    }
}

fn find_word_end(cs: &Vec<char>, i: usize, to: usize) -> (r: usize)
    requires
        i <= to <= cs@.len(),
    ensures
        r == word_end(cs@, i as nat, to as nat),
        i <= r <= to,
    decreases to - i,
{
    if i < to && !is_ws_char(cs[i]) {
        find_word_end(cs, i + 1, to)
    } else {
        i
    }
}

fn find_ident_end(cs: &Vec<char>, i: usize) -> (r: usize)
    requires
        i <= cs@.len(),
    ensures
        r == ident_end(cs@, i as nat),
        i <= r <= cs@.len(),
    decreases cs@.len() - i,
{
    if i < cs.len() && is_ident_ch(cs[i]) {
        find_ident_end(cs, i + 1)
    } else {
        i
    }
}

fn find_char(cs: &Vec<char>, i: usize, q: char) -> (r: usize)
    requires
        i <= cs@.len(),
    ensures
        r == char_end(cs@, i as nat, q),
        i <= r <= cs@.len(),
    decreases cs@.len() - i,
{
    if i < cs.len() && cs[i] != q {
        find_char(cs, i + 1, q)
    } else {
        i
    }
}

fn keyword_here(cs: &Vec<char>, i: usize, kw: &Vec<char>) -> (r: bool)
    requires
        i <= cs@.len(),
    ensures
        r == keyword_at(cs@, i as nat, kw@),
{
    if kw.len() > cs.len() - i {
        return false;
    }
    let n = cs.len();
    let mut k: usize = 0;
    while k < kw.len()
        invariant
            n == cs@.len(),
            i + kw@.len() <= cs@.len(),
            k <= kw@.len(),
            forall|m: int| 0 <= m < k ==> #[trigger] eq_ic(cs@[i + m], kw@[m]),
        decreases kw@.len() - k,
    {
        let c = cs[i + k];
        let w = kw[k];
        if !(c == w || ('a' <= w && w <= 'z' && (c as u32) == (w as u32) - 32)) {
            assert(!eq_ic(cs@[i + k], kw@[k as int]));
            return false;
        }
        k = k + 1;
    }
    let e = i + kw.len();
    e == cs.len() || !is_ident_ch(cs[e])
}

/// The characters `a..b` of `sql` as a string of its own.
fn text_range(sql: &str, a: usize, b: usize) -> (r: String)
    requires
        a <= b <= sql@.len(),
    ensures
        r@ == sql@.subrange(a as int, b as int),
{
    sql.substring_char(a, b).to_owned()
}

/// The first white-space-delimited word of the characters `from..to` of `sql`.
pub fn parse_first_word(sql: &str, cs: &Vec<char>, from: usize, to: usize) -> (r: String)
    requires
        cs@ == sql@,
        from <= to <= cs@.len(),
    ensures
        r@ == first_word(sql@, from as nat, to as nat),
{
    let a = skip_whitespace(cs, from, to);
    let b = find_word_end(cs, a, to);
    text_range(sql, a, b)
}

/// The identifier after the white space at `i`, and where it ends.
pub fn parse_identifier(sql: &str, cs: &Vec<char>, i: usize) -> (r: Option<(String, usize)>)
    requires
        cs@ == sql@,
        i <= cs@.len(),
    ensures
        match ident_at(sql@, i as nat) {
            None => r is None,
            Some((id, e)) => r matches Some((v, e2)) && v@ == id && e2 == e,
        },
        r matches Some((_, e)) ==> i < e <= cs@.len(),
{
    let j = skip_whitespace(cs, i, cs.len());
    let e = find_ident_end(cs, j);
    if e > j {
        Some((text_range(sql, j, e), e))
    } else {
        None
    }
}

/// A comma-separated list of identifiers from `i` on, and where it ends.
pub fn parse_list(sql: &str, cs: &Vec<char>, i: usize) -> (r: Option<(Vec<String>, usize)>)
    requires
        cs@ == sql@,
        i <= cs@.len(),
    ensures
        match list_at(sql@, i as nat) {
            None => r is None,
            Some((ids, e)) => r matches Some((v, e2)) && strings_view(v@) == ids && e2 == e,
        },
        r matches Some((_, e)) ==> e <= cs@.len(),
    decreases cs@.len() - i,
{
    let (id, j) = match parse_identifier(sql, cs, i) {
        Some(p) => p,
        None => {
            return None;
        },
    };
    let k = skip_whitespace(cs, j, cs.len());
    if k < cs.len() && cs[k] == ',' {
        let (mut rest, e) = match parse_list(sql, cs, k + 1) {
            Some(p) => p,
            None => {
                return None;
            },
        };
        let ghost rv = strings_view(rest@);
        rest.insert(0, id);
        proof {
            assert(strings_view(rest@) =~= seq![id@] + rv);
        }
        Some((rest, e))
    } else {
        let v = vec![id];
        proof {
            assert(strings_view(v@) =~= seq![id@]);
        }
        Some((v, j))
    }
}

/// Whether the character after the white space at `i` is `c`; where it ends.
fn parse_symbol(cs: &Vec<char>, i: usize, c: char) -> (r: Option<usize>)
    requires
        i <= cs@.len(),
    ensures
        r is Some <==> symbol_at(cs@, i as nat, c) is Some,
        r matches Some(e) ==> symbol_at(cs@, i as nat, c) == Some(e as nat) && e <= cs@.len(),
{
    let j = skip_whitespace(cs, i, cs.len());
    if j < cs.len() && cs[j] == c {
        Some(j + 1)
    } else {
        None
    }
}

/// The selector (`COUNT(*)` or a list of columns) from `i` on, and where it ends.
pub fn parse_selector(sql: &str, cs: &Vec<char>, i: usize) -> (r: Option<(Selector, usize)>)
    requires
        cs@ == sql@,
        i <= cs@.len(),
    ensures
        match selector_at(sql@, i as nat) {
            None => r is None,
            Some((sel, e)) => r matches Some((v, e2)) && selector_view(v) == sel && e2 == e,
        },
        r matches Some((_, e)) ==> e <= cs@.len(),
{
    let j = skip_whitespace(cs, i, cs.len());
    let kw = vec!['c', 'o', 'u', 'n', 't'];
    proof {
        assert(kw@ == seq!['c', 'o', 'u', 'n', 't']);
    }
    if keyword_here(cs, j, &kw) {
        if let Some(a) = parse_symbol(cs, j + 5, '(') {
            if let Some(b) = parse_symbol(cs, a, '*') {
                if let Some(e) = parse_symbol(cs, b, ')') {
                    return Some((Selector::CountAll, e));
                }
            }
        }
    }
    match parse_list(sql, cs, i) {
        Some((cols, e)) => Some((Selector::Columns(cols), e)),
        None => None,
    }
}

/// `FROM <table>` from `i` on, and where it ends.
pub fn parse_from(sql: &str, cs: &Vec<char>, i: usize) -> (r: Option<(String, usize)>)
    requires
        cs@ == sql@,
        i <= cs@.len(),
    ensures
        match from_at(sql@, i as nat) {
            None => r is None,
            Some((t, e)) => r matches Some((v, e2)) && v@ == t && e2 == e,
        },
        r matches Some((_, e)) ==> e <= cs@.len(),
{
    let j = skip_whitespace(cs, i, cs.len());
    let kw = vec!['f', 'r', 'o', 'm'];
    proof {
        assert(kw@ == seq!['f', 'r', 'o', 'm']);
    }
    if keyword_here(cs, j, &kw) {
        parse_identifier(sql, cs, j + 4)
    } else {
        None
    }
}

/// A quoted or bare literal after the white space at `i`, and where it ends.
fn parse_literal(sql: &str, cs: &Vec<char>, i: usize) -> (r: Option<(String, usize)>)
    requires
        cs@ == sql@,
        i <= cs@.len(),
    ensures
        match literal_at(sql@, i as nat) {
            None => r is None,
            Some((l, e)) => r matches Some((v, e2)) && v@ == l && e2 == e,
        },
        r matches Some((_, e)) ==> e <= cs@.len(),
{
    let j = skip_whitespace(cs, i, cs.len());
    if j >= cs.len() {
        return None;
    }
    let q = cs[j];
    if q == '\'' || q == '"' {
        let e = find_char(cs, j + 1, q);
        if e < cs.len() {
            Some((text_range(sql, j + 1, e), e + 1))
        } else {
            None
        }
    } else {
        let e = find_word_end(cs, j, cs.len());
        Some((text_range(sql, j, e), e))
    }
}

/// The optional `WHERE <column> = <literal>` from `i` on, and where it ends.
pub fn parse_condition(sql: &str, cs: &Vec<char>, i: usize) -> (r: Option<
    (Option<(String, String)>, usize),
>)
    requires
        cs@ == sql@,
        i <= cs@.len(),
    ensures
        match condition_at(sql@, i as nat) {
            None => r is None,
            Some((None, e)) => r matches Some((None, e2)) && e2 == e,
            Some((Some((c, l)), e)) => r matches Some((Some((cv, lv)), e2)) && cv@ == c && lv@ == l
                && e2 == e,
        },
        r matches Some((_, e)) ==> e <= cs@.len(),
{
    let j = skip_whitespace(cs, i, cs.len());
    if j >= cs.len() {
        return Some((None, j));
    }
    let kw = vec!['w', 'h', 'e', 'r', 'e'];
    proof {
        assert(kw@ == seq!['w', 'h', 'e', 'r', 'e']);
    }
    if !keyword_here(cs, j, &kw) {
        return None;
    }
    let (col, k) = match parse_identifier(sql, cs, j + 5) {
        Some(p) => p,
        None => {
            return None;
        },
    };
    let m = match parse_symbol(cs, k, '=') {
        Some(m) => m,
        None => {
            return None;
        },
    };
    match parse_literal(sql, cs, m) {
        Some((lit, e)) => Some((Some((col, lit)), e)),
        None => None,
    }
}

/// Parses `SELECT <columns or COUNT(*)> FROM <table> [WHERE <column> = <literal>]`,
/// keywords in any case. Fails with `Parse` when the text does not match.
pub fn parse_select_statement(sql: &str) -> (r: Result<SelectStatement, DbError>)
    ensures
        match select_grammar(sql@) {
            None => r == Err::<SelectStatement, DbError>(DbError::Parse),
            Some(v) => r matches Ok(st) && statement_view(st) == v,
        },
{
    let cs = chars_of(sql);
    let j = skip_whitespace(&cs, 0, cs.len());
    let kw = vec!['s', 'e', 'l', 'e', 'c', 't'];
    proof {
        assert(kw@ == seq!['s', 'e', 'l', 'e', 'c', 't']);
    }
    if !keyword_here(&cs, j, &kw) {
        return Err(DbError::Parse);
    }
    let (selector, a) = match parse_selector(sql, &cs, j + 6) {
        Some(p) => p,
        None => {
            return Err(DbError::Parse);
        },
    };
    let (from, b) = match parse_from(sql, &cs, a) {
        Some(p) => p,
        None => {
            return Err(DbError::Parse);
        },
    };
    let (condition, e) = match parse_condition(sql, &cs, b) {
        Some(p) => p,
        None => {
            return Err(DbError::Parse);
        },
    };
    if skip_whitespace(&cs, e, cs.len()) != cs.len() {
        return Err(DbError::Parse);
    }
    Ok(SelectStatement { selector, from, condition })
}

/// The column names of a `CREATE TABLE` statement: the first word of each
/// comma-separated definition inside its first pair of parentheses (commas
/// inside nested parentheses separate nothing). Fails with `Parse` when the
/// text has no such list.
pub fn parse_create_table(sql: &str) -> (r: Result<Vec<String>, DbError>)
    ensures
        match table_columns(sql@) {
            None => r == Err::<Vec<String>, DbError>(DbError::Parse),
            Some(cols) => r matches Ok(v) && strings_view(v@) == cols,
        },
{
    let cs = chars_of(sql);
    let p = find_char(&cs, 0, '(');
    if p >= cs.len() {
        return Err(DbError::Parse);
    }
    let mut names: Vec<String> = Vec::new();
    let mut i: usize = p + 1;
    let mut depth: usize = 0;
    let mut start: usize = p + 1;
    proof {
        assert(strings_view(names@) =~= Seq::<Seq<char>>::empty());
    }
    while i < cs.len()
        invariant
            cs@ == sql@,
            p < cs@.len(),
            p + 1 <= start <= i <= cs@.len(),
            depth <= i,
            table_columns(sql@) == columns_from(
                sql@,
                i as nat,
                depth as nat,
                start as nat,
                strings_view(names@),
            ),
        decreases cs@.len() - i,
    {
        let c = cs[i];
        if c == '(' {
            depth = depth + 1;
        } else if c == ')' {
            if depth == 0 {
                let w = parse_first_word(sql, &cs, start, i);
                let ghost before = strings_view(names@);
                names.push(w);
                proof {
                    assert(strings_view(names@) =~= before.push(w@));
                }
                return Ok(names);
            }
            depth = depth - 1;
        } else if c == ',' && depth == 0 {
            let w = parse_first_word(sql, &cs, start, i);
            let ghost before = strings_view(names@);
            names.push(w);
            proof {
                assert(strings_view(names@) =~= before.push(w@));
            }
            start = i + 1;
        }
        i = i + 1;
    }
    Err(DbError::Parse)
}

} // verus!
