//! A small SQL front end over the store: `SELECT`, `INSERT`, `UPDATE` and
//! `DELETE` statements parsed into a query value.
//!
//! The grammar is stated as spec functions over character sequences, and the
//! parser is proved to return exactly what the grammar says for every input.
//! An identifier is a longest non-empty run of alphanumeric characters and
//! underscores; spaces and tabs separate tokens; list elements are separated
//! by a comma with optional spaces around it.

use vstd::prelude::*;

verus! {

/// A parsed SQL statement.
#[derive(Debug, PartialEq, Eq)]
pub enum SQLQuery {
    Select { columns: Vec<String>, table: String },
    Insert { table: String, values: Vec<String> },
    Update { table: String, set: Vec<(String, String)> },
    Delete { table: String },
}

/// What a parsed statement says, over character sequences.
pub enum SqlQueryView {
    Select { columns: Seq<Seq<char>>, table: Seq<char> },
    Insert { table: Seq<char>, values: Seq<Seq<char>> },
    Update { table: Seq<char>, set: Seq<(Seq<char>, Seq<char>)> },
    Delete { table: Seq<char> },
}

impl View for SQLQuery {
    type V = SqlQueryView;

    open spec fn view(&self) -> SqlQueryView {
        match self {
            SQLQuery::Select { columns, table } => SqlQueryView::Select {
                columns: columns.deep_view(),
                table: table@,
            },
            SQLQuery::Insert { table, values } => SqlQueryView::Insert {
                table: table@,
                values: values.deep_view(),
            },
            SQLQuery::Update { table, set } => SqlQueryView::Update {
                table: table@,
                set: set.deep_view(),
            },
            SQLQuery::Delete { table } => SqlQueryView::Delete { table: table@ },
        }
    }
}

/// What `char::is_alphanumeric` holds of a character.
pub uninterp spec fn char_alphanumeric(c: char) -> bool;

/// Relies on char::is_alphanumeric: the result depends on the character
/// alone.
#[verifier::external_body]
fn exec_char_alphanumeric(c: char) -> (r: bool)
    ensures
        r == char_alphanumeric(c),
{
    c.is_alphanumeric()
}

/// A character an identifier may hold.
pub open spec fn is_word_char(c: char) -> bool {
    char_alphanumeric(c) || c == '_'
}

/// A space or a tab: what separates tokens.
pub open spec fn is_space_char(c: char) -> bool {
    c == ' ' || c == '\t'
}

/// The length of the longest prefix of `s` made of identifier characters.
pub open spec fn ident_len(s: Seq<char>) -> nat
    decreases s.len(),
{
    if s.len() == 0 || !is_word_char(s[0]) {
        0
    } else {
        1 + ident_len(s.skip(1))
    }
}

/// The length of the longest prefix of `s` made of spaces and tabs.
pub open spec fn space_len(s: Seq<char>) -> nat
    decreases s.len(),
{
    if s.len() == 0 || !is_space_char(s[0]) {
        0
    } else {
        1 + space_len(s.skip(1))
    }
}

/// An identifier prefix is never longer than the text.
pub proof fn lemma_ident_len_bound(s: Seq<char>)
    ensures
        ident_len(s) <= s.len(),
    decreases s.len(),
{
    if s.len() > 0 && is_word_char(s[0]) {
        lemma_ident_len_bound(s.skip(1));
    }
}

/// A space prefix is never longer than the text.
pub proof fn lemma_space_len_bound(s: Seq<char>)
    ensures
        space_len(s) <= s.len(),
    decreases s.len(),
{
    if s.len() > 0 && is_space_char(s[0]) {
        lemma_space_len_bound(s.skip(1));
    }
}

/// Whether `s` starts with the word `t`; consuming `t.len()` characters.
pub open spec fn starts_with(s: Seq<char>, t: Seq<char>) -> bool {
    t.len() <= s.len() && s.take(t.len() as int) == t
}

/// An identifier at the front of `s`: its characters and length, or nothing
/// when no identifier character starts `s`.
pub open spec fn sp_ident(s: Seq<char>) -> Option<(nat, Seq<char>)> {
    if ident_len(s) == 0 {
        None
    } else {
        Some((ident_len(s), s.take(ident_len(s) as int)))
    }
}

/// The identifiers after the first element of a comma-separated list: each
/// step takes optional spaces, a comma, optional spaces and an identifier,
/// and the list ends before the first step that does not parse.
pub open spec fn sp_ident_list_tail(s: Seq<char>) -> (nat, Seq<Seq<char>>)
    decreases s.len(),
        via sp_ident_list_tail_dec
{
    let sl = space_len(s);
    if sl < s.len() && s[sl as int] == ',' {
        let after_comma = (sl + 1) as nat;
        let sl2 = space_len(s.skip(after_comma as int));
        let elem_at = (after_comma + sl2) as nat;
        match sp_ident(s.skip(elem_at as int)) {
            Some((n, id)) => {
                let (n2, ids) = sp_ident_list_tail(s.skip((elem_at + n) as int));
                ((elem_at + n + n2) as nat, seq![id] + ids)
            },
            None => (0, Seq::empty()),
        }
    } else {
        (0, Seq::empty())
    }
}

#[via_fn]
proof fn sp_ident_list_tail_dec(s: Seq<char>) {
    let sl = space_len(s);
    if sl < s.len() && s[sl as int] == ',' {
        lemma_space_len_bound(s.skip(sl + 1 as int));
        let sl2 = space_len(s.skip(sl + 1 as int));
        lemma_ident_len_bound(s.skip(sl + 1 + sl2 as int));
    }
}

/// A possibly empty comma-separated list of identifiers at the front of `s`:
/// its consumed length and its elements.
pub open spec fn sp_ident_list(s: Seq<char>) -> (nat, Seq<Seq<char>>) {
    match sp_ident(s) {
        Some((n, id)) => {
            let (n2, ids) = sp_ident_list_tail(s.skip(n as int));
            ((n + n2) as nat, seq![id] + ids)
        },
        None => (0, Seq::empty()),
    }
}

/// One `column = value` assignment at the front of `s`: an identifier, an
/// equals sign with optional spaces around it, and an identifier.
pub open spec fn sp_assign(s: Seq<char>) -> Option<(nat, (Seq<char>, Seq<char>))> {
    match sp_ident(s) {
        Some((n1, k)) => {
            let sl = space_len(s.skip(n1 as int));
            let eq_at = (n1 + sl) as nat;
            if eq_at < s.len() && s[eq_at as int] == '=' {
                let sl2 = space_len(s.skip((eq_at + 1) as int));
                let v_at = (eq_at + 1 + sl2) as nat;
                match sp_ident(s.skip(v_at as int)) {
                    Some((n2, v)) => Some(((v_at + n2) as nat, (k, v))),
                    None => None,
                }
            } else {
                None
            }
        },
        None => None,
    }
}

/// The assignments after the first element of a comma-separated list.
pub open spec fn sp_assign_list_tail(s: Seq<char>) -> (nat, Seq<(Seq<char>, Seq<char>)>)
    decreases s.len(),
        via sp_assign_list_tail_dec
{
    let sl = space_len(s);
    if sl < s.len() && s[sl as int] == ',' {
        let after_comma = (sl + 1) as nat;
        let sl2 = space_len(s.skip(after_comma as int));
        let elem_at = (after_comma + sl2) as nat;
        match sp_assign(s.skip(elem_at as int)) {
            Some((n, kv)) => {
                let (n2, kvs) = sp_assign_list_tail(s.skip((elem_at + n) as int));
                ((elem_at + n + n2) as nat, seq![kv] + kvs)
            },
            None => (0, Seq::empty()),
        }
    } else {
        (0, Seq::empty())
    }
}

#[via_fn]
proof fn sp_assign_list_tail_dec(s: Seq<char>) {
    let sl = space_len(s);
    if sl < s.len() && s[sl as int] == ',' {
        lemma_space_len_bound(s.skip(sl + 1 as int));
        let sl2 = space_len(s.skip(sl + 1 as int));
        let elem_at = sl + 1 + sl2 as int;
        match sp_assign(s.skip(elem_at)) {
            Some((n, kv)) => {
                lemma_sp_assign_bound(s.skip(elem_at));
            },
            None => {},
        }
    }
}

/// An assignment never consumes more than the text it parses from.
pub proof fn lemma_sp_assign_bound(s: Seq<char>)
    ensures
        sp_assign(s) is Some ==> 0 < sp_assign(s).unwrap().0 <= s.len(),
{
    lemma_ident_len_bound(s);
    match sp_ident(s) {
        Some((n1, k)) => {
            lemma_space_len_bound(s.skip(n1 as int));
            let sl = space_len(s.skip(n1 as int));
            let eq_at = n1 + sl;
            if eq_at < s.len() && s[eq_at as int] == '=' {
                lemma_space_len_bound(s.skip(eq_at + 1 as int));
                let sl2 = space_len(s.skip(eq_at + 1 as int));
                lemma_ident_len_bound(s.skip(eq_at + 1 + sl2 as int));
            }
        },
        None => {},
    }
}

/// A possibly empty comma-separated list of assignments at the front of `s`.
pub open spec fn sp_assign_list(s: Seq<char>) -> (nat, Seq<(Seq<char>, Seq<char>)>) {
    match sp_assign(s) {
        Some((n, kv)) => {
            let (n2, kvs) = sp_assign_list_tail(s.skip(n as int));
            ((n + n2) as nat, seq![kv] + kvs)
        },
        None => (0, Seq::empty()),
    }
}

/// A `SELECT` statement at the front of `s`: the keyword, spaces, the column
/// list, spaces, `FROM`, spaces, the table name.
pub open spec fn sp_select(s: Seq<char>) -> Option<(nat, SqlQueryView)> {
    if !starts_with(s, "SELECT"@) {
        None
    } else {
        let p1 = "SELECT"@.len();
        let sl = space_len(s.skip(p1 as int));
        if sl == 0 {
            None
        } else {
            let p2 = (p1 + sl) as nat;
            let (nc, cols) = sp_ident_list(s.skip(p2 as int));
            let p3 = (p2 + nc) as nat;
            let sl2 = space_len(s.skip(p3 as int));
            if sl2 == 0 || !starts_with(s.skip((p3 + sl2) as int), "FROM"@) {
                None
            } else {
                let p4 = (p3 + sl2 + "FROM"@.len()) as nat;
                let sl3 = space_len(s.skip(p4 as int));
                if sl3 == 0 {
                    None
                } else {
                    let p5 = (p4 + sl3) as nat;
                    match sp_ident(s.skip(p5 as int)) {
                        Some((nt, table)) => Some(
                            (
                                (p5 + nt) as nat,
                                SqlQueryView::Select { columns: cols, table: table },
                            ),
                        ),
                        None => None,
                    }
                }
            }
        }
    }
}

/// An `INSERT` statement at the front of `s`: `INSERT INTO`, spaces, the
/// table name, spaces, `VALUES`, optional spaces, and the value list in
/// parentheses.
pub open spec fn sp_insert(s: Seq<char>) -> Option<(nat, SqlQueryView)> {
    if !starts_with(s, "INSERT INTO"@) {
        None
    } else {
        let p1 = "INSERT INTO"@.len();
        let sl = space_len(s.skip(p1 as int));
        if sl == 0 {
            None
        } else {
            let p2 = (p1 + sl) as nat;
            match sp_ident(s.skip(p2 as int)) {
                Some((nt, table)) => {
                    let p3 = (p2 + nt) as nat;
                    let sl2 = space_len(s.skip(p3 as int));
                    if sl2 == 0 || !starts_with(s.skip((p3 + sl2) as int), "VALUES"@) {
                        None
                    } else {
                        let p4 = (p3 + sl2 + "VALUES"@.len()) as nat;
                        let sl3 = space_len(s.skip(p4 as int));
                        let p5 = (p4 + sl3) as nat;
                        if !(p5 < s.len() && s[p5 as int] == '(') {
                            None
                        } else {
                            let p6 = (p5 + 1) as nat;
                            let (nv, vals) = sp_ident_list(s.skip(p6 as int));
                            let p7 = (p6 + nv) as nat;
                            if !(p7 < s.len() && s[p7 as int] == ')') {
                                None
                            } else {
                                Some(
                                    (
                                        (p7 + 1) as nat,
                                        SqlQueryView::Insert { table: table, values: vals },
                                    ),
                                )
                            }
                        }
                    }
                },
                None => None,
            }
        }
    }
}

/// An `UPDATE` statement at the front of `s`: the keyword, spaces, the table
/// name, spaces, `SET`, spaces, and the assignment list.
pub open spec fn sp_update(s: Seq<char>) -> Option<(nat, SqlQueryView)> {
    if !starts_with(s, "UPDATE"@) {
        None
    } else {
        let p1 = "UPDATE"@.len();
        let sl = space_len(s.skip(p1 as int));
        if sl == 0 {
            None
        } else {
            let p2 = (p1 + sl) as nat;
            match sp_ident(s.skip(p2 as int)) {
                Some((nt, table)) => {
                    let p3 = (p2 + nt) as nat;
                    let sl2 = space_len(s.skip(p3 as int));
                    if sl2 == 0 || !starts_with(s.skip((p3 + sl2) as int), "SET"@) {
                        None
                    } else {
                        let p4 = (p3 + sl2 + "SET"@.len()) as nat;
                        let sl3 = space_len(s.skip(p4 as int));
                        if sl3 == 0 {
                            None
                        } else {
                            let p5 = (p4 + sl3) as nat;
                            let (na, assigns) = sp_assign_list(s.skip(p5 as int));
                            Some(
                                ((p5 + na) as nat, SqlQueryView::Update { table: table, set: assigns }),
                            )
                        }
                    }
                },
                None => None,
            }
        }
    }
}

/// A `DELETE` statement at the front of `s`: `DELETE FROM`, spaces, the
/// table name.
pub open spec fn sp_delete(s: Seq<char>) -> Option<(nat, SqlQueryView)> {
    if !starts_with(s, "DELETE FROM"@) {
        None
    } else {
        let p1 = "DELETE FROM"@.len();
        let sl = space_len(s.skip(p1 as int));
        if sl == 0 {
            None
        } else {
            let p2 = (p1 + sl) as nat;
            match sp_ident(s.skip(p2 as int)) {
                Some((nt, table)) => Some(
                    ((p2 + nt) as nat, SqlQueryView::Delete { table: table }),
                ),
                None => None,
            }
        }
    }
}

/// What `parse_sql` returns on `s`: the first of the four statement forms
/// that parses, with how many characters it consumed.
pub open spec fn sp_parse_sql(s: Seq<char>) -> Option<(nat, SqlQueryView)> {
    if sp_select(s) is Some {
        sp_select(s)
    } else if sp_insert(s) is Some {
        sp_insert(s)
    } else if sp_update(s) is Some {
        sp_update(s)
    } else {
        sp_delete(s)
    }
}

/// Whether `c` may stand in an identifier.
fn word_char(c: char) -> (r: bool)
    ensures
        r == is_word_char(c),
{
    exec_char_alphanumeric(c) || c == '_'
}

/// Whether `c` separates tokens.
fn space_char(c: char) -> (r: bool)
    ensures
        r == is_space_char(c),
{
    c == ' ' || c == '\t'
}

/// The end of the identifier run that starts at `pos`.
fn scan_word(s: &str, pos: usize) -> (end: usize)
    requires
        pos <= s@.len(),
    ensures
        pos <= end <= s@.len(),
        end - pos == ident_len(s@.skip(pos as int)),
{
    let n = s.unicode_len();
    let mut end: usize = pos;
    loop
        invariant
            pos <= end <= n,
            n == s@.len(),
            ident_len(s@.skip(pos as int)) == (end - pos) + ident_len(s@.skip(end as int)),
        decreases n - end,
    {
        let ghost suffix = s@.skip(end as int);
        if end >= n {
            return end;
        }
        let c = s.get_char(end);
        proof {
            assert(suffix[0] == s@[end as int]);
        }
        if !word_char(c) {
            return end;
        }
        proof {
            assert(suffix.skip(1) =~= s@.skip(end + 1));
        }
        end = end + 1;
    }
}

/// The end of the run of spaces and tabs that starts at `pos`.
fn scan_space(s: &str, pos: usize) -> (end: usize)
    requires
        pos <= s@.len(),
    ensures
        pos <= end <= s@.len(),
        end - pos == space_len(s@.skip(pos as int)),
{
    let n = s.unicode_len();
    let mut end: usize = pos;
    loop
        invariant
            pos <= end <= n,
            n == s@.len(),
            space_len(s@.skip(pos as int)) == (end - pos) + space_len(s@.skip(end as int)),
        decreases n - end,
    {
        let ghost suffix = s@.skip(end as int);
        if end >= n {
            return end;
        }
        let c = s.get_char(end);
        proof {
            assert(suffix[0] == s@[end as int]);
        }
        if !space_char(c) {
            return end;
        }
        proof {
            assert(suffix.skip(1) =~= s@.skip(end + 1));
        }
        end = end + 1;
    }
}

/// Whether the word `w` stands at `pos` in `s`.
fn match_word(s: &str, pos: usize, w: &str) -> (r: bool)
    requires
        pos <= s@.len(),
    ensures
        r == starts_with(s@.skip(pos as int), w@),
{
    let n = s.unicode_len();
    let wn = w.unicode_len();
    if n - pos < wn {
        return false;
    }
    let mut i: usize = 0;
    while i < wn
        invariant
            0 <= i <= wn,
            wn == w@.len(),
            n == s@.len(),
            pos + wn <= n,
            forall|j: int| 0 <= j < i ==> s@[pos + j] == w@[j],
        decreases wn - i,
    {
        if s.get_char(pos + i) != w.get_char(i) {
            proof {
                let suffix = s@.skip(pos as int);
                assert(suffix.take(wn as int)[i as int] == s@[pos + i]);
            }
            return false;
        }
        i = i + 1;
    }
    proof {
        assert(s@.skip(pos as int).take(wn as int) =~= w@);
    }
    true
}

/// The identifier at `pos`: where it ends and its characters.
fn parse_ident(s: &str, pos: usize) -> (r: Option<(usize, String)>)
    requires
        pos <= s@.len(),
    ensures
        match r {
            Some(pi) => pos < pi.0 <= s@.len() && sp_ident(s@.skip(pos as int)) == Some(
                (((pi.0 - pos) as nat, pi.1@)),
            ),
            None => sp_ident(s@.skip(pos as int)) is None,
        },
{
    let end = scan_word(s, pos);
    if end == pos {
        None
    } else {
        let id = s.substring_char(pos, end).to_owned();
        proof {
            assert(id@ =~= s@.skip(pos as int).take((end - pos) as int));
        }
        Some((end, id))
    }
}

/// The comma-separated identifier list at `pos`: where it ends and its
/// elements. It never fails; an empty list consumes nothing.
fn parse_ident_list(s: &str, pos: usize) -> (r: (usize, Vec<String>))
    requires
        pos <= s@.len(),
    ensures
        pos <= r.0 <= s@.len(),
        sp_ident_list(s@.skip(pos as int)).0 == r.0 - pos,
        sp_ident_list(s@.skip(pos as int)).1 == r.1.deep_view(),
{
    let n = s.unicode_len();
    let mut ids: Vec<String> = Vec::new();
    let first = parse_ident(s, pos);
    match first {
        None => {
            proof {
                assert(ids.deep_view() =~= Seq::<Seq<char>>::empty());
            }
            (pos, ids)
        },
        Some((p1, id)) => {
            ids.push(id);
            let mut cur: usize = p1;
            proof {
                let s0 = s@.skip(pos as int);
                assert(s0.skip((p1 - pos) as int) =~= s@.skip(p1 as int));
                assert(ids.deep_view() =~= seq![sp_ident(s0).unwrap().1]);
            }
            loop
                invariant
                    pos <= cur <= n,
                    n == s@.len(),
                    sp_ident_list(s@.skip(pos as int)).0 == (cur - pos) + sp_ident_list_tail(
                        s@.skip(cur as int),
                    ).0,
                    sp_ident_list(s@.skip(pos as int)).1 == ids.deep_view() + sp_ident_list_tail(
                        s@.skip(cur as int),
                    ).1,
                decreases n - cur,
            {
                let ghost sc = s@.skip(cur as int);
                let ghost tail = sp_ident_list_tail(sc);
                let sl_end = scan_space(s, cur);
                proof {
                    assert(space_len(sc) == sl_end - cur);
                    if sl_end < n {
                        assert(sc[(sl_end - cur) as int] == s@[sl_end as int]);
                    }
                }
                if sl_end >= n {
                    proof {
                        assert(tail == (0nat, Seq::<Seq<char>>::empty()));
                        assert(ids.deep_view() + tail.1 =~= ids.deep_view());
                    }
                    return (cur, ids);
                }
                let c = s.get_char(sl_end);
                if c != ',' {
                    proof {
                        assert(tail == (0nat, Seq::<Seq<char>>::empty()));
                        assert(ids.deep_view() + tail.1 =~= ids.deep_view());
                    }
                    return (cur, ids);
                }
                let after_comma = sl_end + 1;
                let sl2_end = scan_space(s, after_comma);
                proof {
                    assert(sc.skip((after_comma - cur) as int) =~= s@.skip(after_comma as int));
                    assert(sc.skip((sl2_end - cur) as int) =~= s@.skip(sl2_end as int));
                }
                match parse_ident(s, sl2_end) {
                    None => {
                        proof {
                            assert(tail == (0nat, Seq::<Seq<char>>::empty()));
                            assert(ids.deep_view() + tail.1 =~= ids.deep_view());
                        }
                        return (cur, ids);
                    },
                    Some((p2, id2)) => {
                        let ghost ids0 = ids.deep_view();
                        ids.push(id2);
                        proof {
                            assert(sc.skip((p2 - cur) as int) =~= s@.skip(p2 as int));
                            let next_tail = sp_ident_list_tail(s@.skip(p2 as int));
                            assert(tail.0 == (p2 - cur) + next_tail.0);
                            assert(tail.1 == seq![id2@] + next_tail.1);
                            assert(ids.deep_view() =~= ids0.push(id2@));
                            assert(ids0 + tail.1 =~= ids.deep_view() + next_tail.1);
                        }
                        cur = p2;
                    },
                }
            }
        },
    }
}

/// The `column = value` assignment at `pos`: where it ends and its pair.
fn parse_assign(s: &str, pos: usize) -> (r: Option<(usize, (String, String))>)
    requires
        pos <= s@.len(),
    ensures
        match r {
            Some(pa) => pos < pa.0 <= s@.len() && sp_assign(s@.skip(pos as int)) == Some(
                (((pa.0 - pos) as nat, (pa.1.0@, pa.1.1@))),
            ),
            None => sp_assign(s@.skip(pos as int)) is None,
        },
{
    let ghost s0 = s@.skip(pos as int);
    match parse_ident(s, pos) {
        None => None,
        Some((p1, k)) => {
            proof {
                assert(s0.skip((p1 - pos) as int) =~= s@.skip(p1 as int));
            }
            let sl_end = scan_space(s, p1);
            let n = s.unicode_len();
            proof {
                if sl_end < n {
                    assert(s0[(sl_end - pos) as int] == s@[sl_end as int]);
                }
            }
            if sl_end >= n {
                return None;
            }
            let c = s.get_char(sl_end);
            if c != '=' {
                return None;
            }
            let sl2_end = scan_space(s, sl_end + 1);
            proof {
                assert(s0.skip((sl_end + 1 - pos) as int) =~= s@.skip(sl_end + 1));
                assert(s0.skip((sl2_end - pos) as int) =~= s@.skip(sl2_end as int));
            }
            match parse_ident(s, sl2_end) {
                None => None,
                Some((p2, v)) => Some((p2, (k, v))),
            }
        },
    }
}

/// The comma-separated assignment list at `pos`: where it ends and its
/// pairs. It never fails; an empty list consumes nothing.
fn parse_assign_list(s: &str, pos: usize) -> (r: (usize, Vec<(String, String)>))
    requires
        pos <= s@.len(),
    ensures
        pos <= r.0 <= s@.len(),
        sp_assign_list(s@.skip(pos as int)).0 == r.0 - pos,
        sp_assign_list(s@.skip(pos as int)).1 == r.1.deep_view(),
{
    let n = s.unicode_len();
    let mut kvs: Vec<(String, String)> = Vec::new();
    let first = parse_assign(s, pos);
    match first {
        None => {
            proof {
                assert(kvs.deep_view() =~= Seq::<(Seq<char>, Seq<char>)>::empty());
            }
            (pos, kvs)
        },
        Some((p1, kv)) => {
            kvs.push(kv);
            let mut cur: usize = p1;
            proof {
                let s0 = s@.skip(pos as int);
                assert(s0.skip((p1 - pos) as int) =~= s@.skip(p1 as int));
                assert(kvs.deep_view() =~= seq![sp_assign(s0).unwrap().1]);
            }
            loop
                invariant
                    pos <= cur <= n,
                    n == s@.len(),
                    sp_assign_list(s@.skip(pos as int)).0 == (cur - pos) + sp_assign_list_tail(
                        s@.skip(cur as int),
                    ).0,
                    sp_assign_list(s@.skip(pos as int)).1 == kvs.deep_view()
                        + sp_assign_list_tail(s@.skip(cur as int)).1,
                decreases n - cur,
            {
                let ghost sc = s@.skip(cur as int);
                let ghost tail = sp_assign_list_tail(sc);
                let sl_end = scan_space(s, cur);
                proof {
                    assert(space_len(sc) == sl_end - cur);
                    if sl_end < n {
                        assert(sc[(sl_end - cur) as int] == s@[sl_end as int]);
                    }
                }
                if sl_end >= n {
                    proof {
                        assert(tail == (0nat, Seq::<(Seq<char>, Seq<char>)>::empty()));
                        assert(kvs.deep_view() + tail.1 =~= kvs.deep_view());
                    }
                    return (cur, kvs);
                }
                let c = s.get_char(sl_end);
                if c != ',' {
                    proof {
                        assert(tail == (0nat, Seq::<(Seq<char>, Seq<char>)>::empty()));
                        assert(kvs.deep_view() + tail.1 =~= kvs.deep_view());
                    }
                    return (cur, kvs);
                }
                let after_comma = sl_end + 1;
                let sl2_end = scan_space(s, after_comma);
                proof {
                    assert(sc.skip((after_comma - cur) as int) =~= s@.skip(after_comma as int));
                    assert(sc.skip((sl2_end - cur) as int) =~= s@.skip(sl2_end as int));
                }
                match parse_assign(s, sl2_end) {
                    None => {
                        proof {
                            assert(tail == (0nat, Seq::<(Seq<char>, Seq<char>)>::empty()));
                            assert(kvs.deep_view() + tail.1 =~= kvs.deep_view());
                        }
                        return (cur, kvs);
                    },
                    Some((p2, kv2)) => {
                        let ghost kvs0 = kvs.deep_view();
                        let ghost kv2v = (kv2.0@, kv2.1@);
                        kvs.push(kv2);
                        proof {
                            assert(sc.skip((p2 - cur) as int) =~= s@.skip(p2 as int));
                            let next_tail = sp_assign_list_tail(s@.skip(p2 as int));
                            assert(tail.0 == (p2 - cur) + next_tail.0);
                            assert(tail.1 == seq![kv2v] + next_tail.1);
                            assert(kvs.deep_view() =~= kvs0.push(kv2v));
                            assert(kvs0 + tail.1 =~= kvs.deep_view() + next_tail.1);
                        }
                        cur = p2;
                    },
                }
            }
        },
    }
}

/// The `SELECT` statement at the front of `s`, if one stands there.
#[verifier::rlimit(50)]
fn parse_select(s: &str) -> (r: Option<(usize, SQLQuery)>)
    ensures
        match r {
            Some(nq) => nq.0 <= s@.len() && sp_select(s@) == Some(((nq.0 as nat, nq.1@))),
            None => sp_select(s@) is None,
        },
{
    let n = s.unicode_len();
    proof {
        assert(s@.skip(0) =~= s@);
    }
    if !match_word(s, 0, "SELECT") {
        return None;
    }
    let p1 = "SELECT".unicode_len();
    let sl_end = scan_space(s, p1);
    proof {
        assert(space_len(s@.skip(p1 as int)) == sl_end - p1);
    }
    if sl_end == p1 {
        return None;
    }
    let (nc_end, cols) = parse_ident_list(s, sl_end);
    let sl2_end = scan_space(s, nc_end);
    proof {
        assert(space_len(s@.skip(nc_end as int)) == sl2_end - nc_end);
    }
    if sl2_end == nc_end {
        return None;
    }
    if !match_word(s, sl2_end, "FROM") {
        return None;
    }
    proof {
        assert(sl2_end + "FROM"@.len() <= n);
    }
    let p4 = sl2_end + "FROM".unicode_len();
    let sl3_end = scan_space(s, p4);
    proof {
        assert(space_len(s@.skip(p4 as int)) == sl3_end - p4);
    }
    if sl3_end == p4 {
        return None;
    }
    match parse_ident(s, sl3_end) {
        None => None,
        Some((pt, table)) => Some((pt, SQLQuery::Select { columns: cols, table })),
    }
}

/// The `INSERT` statement at the front of `s`, if one stands there.
#[verifier::rlimit(50)]
fn parse_insert(s: &str) -> (r: Option<(usize, SQLQuery)>)
    ensures
        match r {
            Some(nq) => nq.0 <= s@.len() && sp_insert(s@) == Some(((nq.0 as nat, nq.1@))),
            None => sp_insert(s@) is None,
        },
{
    let n = s.unicode_len();
    proof {
        assert(s@.skip(0) =~= s@);
    }
    if !match_word(s, 0, "INSERT INTO") {
        return None;
    }
    let p1 = "INSERT INTO".unicode_len();
    let sl_end = scan_space(s, p1);
    proof {
        assert(space_len(s@.skip(p1 as int)) == sl_end - p1);
    }
    if sl_end == p1 {
        return None;
    }
    let (p3, table) = match parse_ident(s, sl_end) {
        None => {
            return None;
        },
        Some(pt) => pt,
    };
    let sl2_end = scan_space(s, p3);
    proof {
        assert(space_len(s@.skip(p3 as int)) == sl2_end - p3);
    }
    if sl2_end == p3 {
        return None;
    }
    if !match_word(s, sl2_end, "VALUES") {
        return None;
    }
    proof {
        assert(sl2_end + "VALUES"@.len() <= n);
    }
    let p4 = sl2_end + "VALUES".unicode_len();
    let sl3_end = scan_space(s, p4);
    proof {
        assert(space_len(s@.skip(p4 as int)) == sl3_end - p4);
        if sl3_end < n {
            assert(s@.skip(p4 as int)[(sl3_end - p4) as int] == s@[sl3_end as int]);
        }
    }
    if sl3_end >= n {
        return None;
    }
    if s.get_char(sl3_end) != '(' {
        return None;
    }
    let p6 = sl3_end + 1;
    let (nv_end, vals) = parse_ident_list(s, p6);
    proof {
        if nv_end < n {
            assert(s@[nv_end as int] == s@.skip(nv_end as int)[0]);
        }
    }
    if nv_end >= n {
        return None;
    }
    if s.get_char(nv_end) != ')' {
        return None;
    }
    Some((nv_end + 1, SQLQuery::Insert { table, values: vals }))
}

/// The `UPDATE` statement at the front of `s`, if one stands there.
#[verifier::rlimit(50)]
fn parse_update(s: &str) -> (r: Option<(usize, SQLQuery)>)
    ensures
        match r {
            Some(nq) => nq.0 <= s@.len() && sp_update(s@) == Some(((nq.0 as nat, nq.1@))),
            None => sp_update(s@) is None,
        },
{
    let n = s.unicode_len();
    proof {
        assert(s@.skip(0) =~= s@);
    }
    if !match_word(s, 0, "UPDATE") {
        return None;
    }
    let p1 = "UPDATE".unicode_len();
    let sl_end = scan_space(s, p1);
    proof {
        assert(space_len(s@.skip(p1 as int)) == sl_end - p1);
    }
    if sl_end == p1 {
        return None;
    }
    let (p3, table) = match parse_ident(s, sl_end) {
        None => {
            return None;
        },
        Some(pt) => pt,
    };
    let sl2_end = scan_space(s, p3);
    proof {
        assert(space_len(s@.skip(p3 as int)) == sl2_end - p3);
    }
    if sl2_end == p3 {
        return None;
    }
    if !match_word(s, sl2_end, "SET") {
        return None;
    }
    proof {
        assert(sl2_end + "SET"@.len() <= n);
    }
    let p4 = sl2_end + "SET".unicode_len();
    let sl3_end = scan_space(s, p4);
    proof {
        assert(space_len(s@.skip(p4 as int)) == sl3_end - p4);
    }
    if sl3_end == p4 {
        return None;
    }
    let (na_end, assigns) = parse_assign_list(s, sl3_end);
    Some((na_end, SQLQuery::Update { table, set: assigns }))
}

/// The `DELETE` statement at the front of `s`, if one stands there.
#[verifier::rlimit(50)]
fn parse_delete(s: &str) -> (r: Option<(usize, SQLQuery)>)
    ensures
        match r {
            Some(nq) => nq.0 <= s@.len() && sp_delete(s@) == Some(((nq.0 as nat, nq.1@))),
            None => sp_delete(s@) is None,
        },
{
    proof {
        assert(s@.skip(0) =~= s@);
    }
    if !match_word(s, 0, "DELETE FROM") {
        return None;
    }
    let p1 = "DELETE FROM".unicode_len();
    let sl_end = scan_space(s, p1);
    proof {
        assert(space_len(s@.skip(p1 as int)) == sl_end - p1);
    }
    if sl_end == p1 {
        return None;
    }
    match parse_ident(s, sl_end) {
        None => None,
        Some((pt, table)) => Some((pt, SQLQuery::Delete { table })),
    }
}

/// Parses one SQL statement from the front of `input`: the first of the four
/// statement forms that matches, with the unconsumed rest of the input. The
/// result is exactly what the grammar spec says, on every input.
pub fn parse_sql<'a>(input: &'a str) -> (r: Option<(&'a str, SQLQuery)>)
    ensures
        r is Some <==> sp_parse_sql(input@) is Some,
        r is Some ==> ({
            let (n, qv) = sp_parse_sql(input@).unwrap();
            &&& r.unwrap().0@ == input@.skip(n as int)
            &&& r.unwrap().1@ == qv
        }),
{
    let consumed: Option<(usize, SQLQuery)> = match parse_select(input) {
        Some(nq) => Some(nq),
        None => match parse_insert(input) {
            Some(nq) => Some(nq),
            None => match parse_update(input) {
                Some(nq) => Some(nq),
                None => parse_delete(input),
            },
        },
    };
    match consumed {
        None => None,
        Some((n, q)) => {
            let rest = input.substring_char(n, input.unicode_len());
            proof {
                assert(rest@ =~= input@.skip(n as int));
            }
            Some((rest, q))
        },
    }
}

} // verus!
