//! Tabs: the lexer reports each tab it reads as code, and only those.
use vstd::prelude::*;
use crate::ast::FileId;
use crate::lexer_spec::{
    continues_identifier, identifier_end, indentation_end, initial_state, is_exponent_sign,
    is_number_continue, lemma_indentation_end, lemma_lex_element_advances,
    lemma_lex_step_advances, lex_element, lex_from, lex_indentation, lex_source, lex_step,
    newline_end, number_end, operator, starts_identifier, tab_error, tab_errors, LexState,
};

verus! {

/// The lexer's state after `n` steps from the start (it stays put at the end).
pub open spec fn steps(file: FileId, cs: Seq<char>, n: nat) -> LexState
    decreases n,
{
    if n == 0 {
        initial_state()
    } else {
        let s = steps(file, cs, (n - 1) as nat);
        if 0 <= s.idx < cs.len() {
            lex_step(file, cs, s)
        } else {
            s
        }
    }
}

/// The state in which a step reads its element: after measuring the
/// indentation where a logical line starts outside brackets.
pub open spec fn element_state(file: FileId, cs: Seq<char>, s: LexState) -> LexState {
    if s.at_line_start && s.nesting == 0 {
        lex_indentation(file, cs, s)
    } else {
        s
    }
}

/// The character at `p` lies inside a string literal (closed or not) or a
/// comment, as the lexer reads them: after the quote or `#` that starts an
/// element and before that element's end.
pub open spec fn in_string_or_comment(file: FileId, cs: Seq<char>, p: int) -> bool {
    exists|n: nat|
        {
            let s = #[trigger] steps(file, cs, n);
            let s1 = element_state(file, cs, s);
            &&& 0 <= s.idx < cs.len()
            &&& s1.idx < cs.len()
            &&& (cs[s1.idx] == '#' || cs[s1.idx] == '"' || cs[s1.idx] == '\'')
            &&& s1.idx < p < lex_element(file, cs, s1).idx
        }
}

proof fn lemma_steps_basic(file: FileId, cs: Seq<char>, n: nat)
    ensures
        0 <= steps(file, cs, n).idx <= cs.len(),
        steps(file, cs, n).idx >= n || steps(file, cs, n).idx == cs.len(),
        lex_from(file, cs, steps(file, cs, n)) == lex_from(file, cs, initial_state()),
    decreases n,
{
    if n > 0 {
        let s = steps(file, cs, (n - 1) as nat);
        lemma_steps_basic(file, cs, (n - 1) as nat);
        if 0 <= s.idx < cs.len() {
            lemma_lex_step_advances(file, cs, s);
        }
    }
}

proof fn lemma_steps_mono(file: FileId, cs: Seq<char>, m: nat, n: nat)
    requires
        m <= n,
    ensures
        steps(file, cs, m).idx <= steps(file, cs, n).idx,
    decreases n - m,
{
    if m < n {
        lemma_steps_mono(file, cs, m, (n - 1) as nat);
        let s = steps(file, cs, (n - 1) as nat);
        lemma_steps_basic(file, cs, (n - 1) as nat);
        if 0 <= s.idx < cs.len() {
            lemma_lex_step_advances(file, cs, s);
        }
    }
}

/// After as many steps as there are characters, the lexer is at the end,
/// in the state `lex_source` finishes.
proof fn lemma_steps_end(file: FileId, cs: Seq<char>)
    ensures
        steps(file, cs, cs.len()).idx == cs.len(),
        lex_from(file, cs, initial_state()) == steps(file, cs, cs.len()),
{
    lemma_steps_basic(file, cs, cs.len());
}

/// A step only appends diagnostics.
proof fn lemma_step_appends(file: FileId, cs: Seq<char>, s: LexState)
    requires
        0 <= s.idx < cs.len(),
    ensures
        lex_step(file, cs, s).diagnostics.len() >= s.diagnostics.len(),
        lex_step(file, cs, s).diagnostics.subrange(0, s.diagnostics.len() as int)
            == s.diagnostics,
        element_state(file, cs, s).diagnostics.subrange(0, s.diagnostics.len() as int)
            == s.diagnostics,
        element_state(file, cs, s).diagnostics.len() >= s.diagnostics.len(),
        lex_step(file, cs, s).diagnostics.len() >= element_state(file, cs, s).diagnostics.len(),
        lex_step(file, cs, s).diagnostics.subrange(
            0,
            element_state(file, cs, s).diagnostics.len() as int,
        ) == element_state(file, cs, s).diagnostics,
        lex_step(file, cs, s) == if element_state(file, cs, s).idx < cs.len() {
            lex_element(file, cs, element_state(file, cs, s))
        } else {
            element_state(file, cs, s)
        },
{
    let s1 = element_state(file, cs, s);
    let i = s.idx;
    let j = indentation_end(cs, i);
    assert(s1.diagnostics.subrange(0, s.diagnostics.len() as int) =~= s.diagnostics);
    if s1.idx < cs.len() {
        let s2 = lex_element(file, cs, s1);
        assert(s2.diagnostics.subrange(0, s1.diagnostics.len() as int) =~= s1.diagnostics);
        assert(s2.diagnostics.subrange(0, s.diagnostics.len() as int) =~= s.diagnostics);
    }
}

/// `tab_errors` reports every tab of its range.
proof fn lemma_tab_errors_cover(file: FileId, cs: Seq<char>, i: int, j: int, p: int)
    requires
        0 <= i <= p < j <= cs.len(),
        cs[p] == '\t',
    ensures
        tab_errors(file, cs, i, j).contains(tab_error(file, cs, p)),
    decreases j - i,
{
    let prev = tab_errors(file, cs, i, j - 1);
    if p == j - 1 {
        let all = tab_errors(file, cs, i, j);
        assert(all[prev.len() as int] == tab_error(file, cs, p));
    } else {
        lemma_tab_errors_cover(file, cs, i, j - 1, p);
        let k = choose|k: int| 0 <= k < prev.len() && prev[k] == tab_error(file, cs, p);
        assert(tab_errors(file, cs, i, j)[k] == tab_error(file, cs, p));
    }
}

/// Every entry of `tab_errors` is the report of a tab of its range.
proof fn lemma_tab_errors_sound(file: FileId, cs: Seq<char>, i: int, j: int, k: int)
    requires
        0 <= i <= j <= cs.len(),
        0 <= k < tab_errors(file, cs, i, j).len(),
    ensures
        exists|p: int|
            i <= p < j && cs[p] == '\t' && tab_errors(file, cs, i, j)[k] == #[trigger] tab_error(
                file,
                cs,
                p,
            ),
    decreases j - i,
{
    if j > i {
        let prev = tab_errors(file, cs, i, j - 1);
        if k < prev.len() {
            lemma_tab_errors_sound(file, cs, i, j - 1, k);
            assert(tab_errors(file, cs, i, j)[k] == prev[k]);
        } else {
            assert(tab_errors(file, cs, i, j)[k] == tab_error(file, cs, j - 1));
        }
    }
}

proof fn lemma_number_no_tab(cs: Seq<char>, start: int, k: int, q: int)
    requires
        0 <= k <= q < number_end(cs, start, k),
    ensures
        cs[q] != '\t',
    decreases q - k,
{
    if k < q {
        lemma_number_no_tab(cs, start, k + 1, q);
    } else {
        assert(is_number_continue(cs[q]) || is_exponent_sign(cs, start, q));
    }
}

proof fn lemma_identifier_no_tab(cs: Seq<char>, k: int, q: int)
    requires
        0 <= k <= q < identifier_end(cs, k),
    ensures
        cs[q] != '\t',
    decreases q - k,
{
    if k < q {
        lemma_identifier_no_tab(cs, k + 1, q);
    } else {
        assert(continues_identifier(cs[q]));
    }
}

/// Inside an element that is not a string or comment, past its first
/// character, there is no tab.
proof fn lemma_element_inside_no_tab(file: FileId, cs: Seq<char>, s: LexState, q: int)
    requires
        0 <= s.idx < cs.len(),
        s.idx < q < lex_element(file, cs, s).idx,
        cs[s.idx] != '#' && cs[s.idx] != '"' && cs[s.idx] != '\'',
    ensures
        cs[q] != '\t',
{
    let i = s.idx;
    let c = cs[i];
    if c == ' ' || c == '\x0c' || c == '\t' {
    } else if c == '\n' || c == '\r' {
        assert(newline_end(cs, i) <= i + 2);
    } else if '0' <= c && c <= '9' {
        lemma_number_no_tab(cs, i, i + 1, q);
    } else if starts_identifier(c) {
        lemma_identifier_no_tab(cs, i + 1, q);
    } else {
        assert(operator(cs, i).1 <= i + 2);
        assert(q == i + 1);
    }
}

/// The character at `p` is read as code at step `m`: by the indentation
/// measurement or as the first character of the element.
pub open spec fn read_as_code_at(file: FileId, cs: Seq<char>, m: nat, p: int) -> bool {
    let s = steps(file, cs, m);
    let s1 = element_state(file, cs, s);
    &&& 0 <= s.idx < cs.len()
    &&& s.idx <= p <= s1.idx
    &&& p < cs.len()
}

proof fn lemma_element_state_idx(file: FileId, cs: Seq<char>, s: LexState)
    requires
        0 <= s.idx <= cs.len(),
    ensures
        s.idx <= element_state(file, cs, s).idx <= cs.len(),
{
    lemma_indentation_end(cs, s.idx);
}

/// What is read as code is not inside a string or a comment.
proof fn lemma_code_not_in_string(file: FileId, cs: Seq<char>, m: nat, p: int)
    requires
        read_as_code_at(file, cs, m, p),
    ensures
        !in_string_or_comment(file, cs, p),
{
    let sm = steps(file, cs, m);
    let s1m = element_state(file, cs, sm);
    lemma_step_appends(file, cs, sm);
    lemma_steps_basic(file, cs, m);
    if s1m.idx < cs.len() {
        lemma_lex_element_advances(file, cs, s1m);
    }
    assert(p < steps(file, cs, m + 1).idx);
    if in_string_or_comment(file, cs, p) {
        let n = choose|n: nat|
            {
                let s = #[trigger] steps(file, cs, n);
                let s1 = element_state(file, cs, s);
                &&& 0 <= s.idx < cs.len()
                &&& s1.idx < cs.len()
                &&& (cs[s1.idx] == '#' || cs[s1.idx] == '"' || cs[s1.idx] == '\'')
                &&& s1.idx < p < lex_element(file, cs, s1).idx
            };
        let sn = steps(file, cs, n);
        let s1n = element_state(file, cs, sn);
        lemma_step_appends(file, cs, sn);
        lemma_element_state_idx(file, cs, sn);
        if n < m {
            lemma_steps_mono(file, cs, n + 1, m);
            assert(steps(file, cs, n + 1) == lex_step(file, cs, sn));
        } else if n > m {
            lemma_steps_mono(file, cs, m + 1, n);
        }
    }
}

/// Every tab read as code up to step `n` is reported, and every `RYL0001`
/// reported up to step `n` is the report of a tab read as code.
spec fn tabs_reported(file: FileId, cs: Seq<char>, n: nat) -> bool {
    let s = steps(file, cs, n);
    &&& forall|p: int|
        0 <= p < s.idx && cs[p] == '\t' && !in_string_or_comment(file, cs, p)
            ==> s.diagnostics.contains(#[trigger] tab_error(file, cs, p))
    &&& forall|k: int|
        0 <= k < s.diagnostics.len() && (#[trigger] s.diagnostics[k]).code == "RYL0001"@
            ==> exists|p: int, m: nat|
            m < n && cs[p] == '\t' && #[trigger] read_as_code_at(file, cs, m, p) && s.diagnostics[k]
                == tab_error(file, cs, p)
}

proof fn lemma_codes_differ()
    ensures
        "RYL0002"@ != "RYL0001"@,
        "RYL0003"@ != "RYL0001"@,
        "RYL0004"@ != "RYL0001"@,
{
    reveal_strlit("RYL0001");
    reveal_strlit("RYL0002");
    reveal_strlit("RYL0003");
    reveal_strlit("RYL0004");
    assert("RYL0002"@[6] != "RYL0001"@[6]);
    assert("RYL0003"@[6] != "RYL0001"@[6]);
    assert("RYL0004"@[6] != "RYL0001"@[6]);
}

proof fn lemma_tabs_step(file: FileId, cs: Seq<char>, n: nat)
    requires
        tabs_reported(file, cs, n),
    ensures
        tabs_reported(file, cs, n + 1),
{
    let s = steps(file, cs, n);
    lemma_steps_basic(file, cs, n);
    if 0 <= s.idx < cs.len() {
        let s1 = element_state(file, cs, s);
        let s2 = lex_step(file, cs, s);
        assert(steps(file, cs, n + 1) == s2);
        lemma_step_appends(file, cs, s);
        lemma_element_state_idx(file, cs, s);
        lemma_codes_differ();
        let i = s.idx;
        let j = indentation_end(cs, i);
        lemma_indentation_end(cs, i);
        let old_len = s.diagnostics.len() as int;
        let mid_len = s1.diagnostics.len() as int;
        if s.at_line_start && s.nesting == 0 {
            assert(s1.idx == j);
            assert(s1.diagnostics.subrange(0, old_len + tab_errors(file, cs, i, j).len())
                =~= s.diagnostics + tab_errors(file, cs, i, j));
        } else {
            assert(s1 == s);
        }
        if s1.idx < cs.len() {
            lemma_lex_element_advances(file, cs, s1);
        }
        // completeness
        assert forall|p: int|
            0 <= p < s2.idx && cs[p] == '\t' && !in_string_or_comment(file, cs, p)
                implies s2.diagnostics.contains(#[trigger] tab_error(file, cs, p)) by {
            if p < i {
                let k = choose|k: int|
                    0 <= k < s.diagnostics.len() && s.diagnostics[k] == tab_error(file, cs, p);
                assert(s2.diagnostics.subrange(0, old_len)[k] == s2.diagnostics[k]);
                assert(s2.diagnostics[k] == tab_error(file, cs, p));
            } else if p < s1.idx {
                assert(s.at_line_start && s.nesting == 0);
                lemma_tab_errors_cover(file, cs, i, j, p);
                let t = tab_errors(file, cs, i, j);
                let k = choose|k: int| 0 <= k < t.len() && t[k] == tab_error(file, cs, p);
                assert(s1.diagnostics[old_len + k] == (s.diagnostics + t)[old_len + k]);
                assert(s2.diagnostics.subrange(0, mid_len)[old_len + k] == s2.diagnostics[old_len
                    + k]);
                assert(s2.diagnostics[old_len + k] == tab_error(file, cs, p));
            } else if p == s1.idx {
                assert(s2.diagnostics == s1.diagnostics.push(tab_error(file, cs, p)));
                assert(s2.diagnostics[mid_len] == tab_error(file, cs, p));
            } else {
                let c = cs[s1.idx];
                if c == '#' || c == '"' || c == '\'' {
                    assert(in_string_or_comment(file, cs, p)) by {
                        assert({
                            let ss = steps(file, cs, n);
                            let ss1 = element_state(file, cs, ss);
                            &&& 0 <= ss.idx < cs.len()
                            &&& ss1.idx < cs.len()
                            &&& (cs[ss1.idx] == '#' || cs[ss1.idx] == '"' || cs[ss1.idx] == '\'')
                            &&& ss1.idx < p < lex_element(file, cs, ss1).idx
                        });
                    }
                } else {
                    lemma_element_inside_no_tab(file, cs, s1, p);
                }
            }
        }
        // soundness
        assert forall|k: int|
            0 <= k < s2.diagnostics.len() && (#[trigger] s2.diagnostics[k]).code == "RYL0001"@
                implies exists|p: int, m: nat|
            m < n + 1 && cs[p] == '\t' && #[trigger] read_as_code_at(file, cs, m, p) && s2.diagnostics[k]
                == tab_error(file, cs, p) by {
            if k < old_len {
                assert(s2.diagnostics.subrange(0, old_len)[k] == s2.diagnostics[k]);
                assert(s.diagnostics[k] == s2.diagnostics[k]);
                let (p, m) = choose|p: int, m: nat|
                    m < n && cs[p] == '\t' && #[trigger] read_as_code_at(file, cs, m, p) && s.diagnostics[k]
                        == tab_error(file, cs, p);
                assert(read_as_code_at(file, cs, m, p));
            } else if k < mid_len {
                assert(s2.diagnostics.subrange(0, mid_len)[k] == s2.diagnostics[k]);
                assert(s.at_line_start && s.nesting == 0);
                let t = tab_errors(file, cs, i, j);
                if k < old_len + t.len() {
                    assert(s1.diagnostics[k] == t[k - old_len]);
                    lemma_tab_errors_sound(file, cs, i, j, k - old_len);
                    let p = choose|p: int|
                        i <= p < j && cs[p] == '\t' && t[k - old_len] == #[trigger] tab_error(
                            file,
                            cs,
                            p,
                        );
                    assert(read_as_code_at(file, cs, n, p));
                } else {
                    assert(s1.diagnostics[k].code == "RYL0002"@);
                }
            } else {
                let c = cs[s1.idx];
                if c == '\t' {
                    assert(s2.diagnostics[k] == tab_error(file, cs, s1.idx));
                    assert(read_as_code_at(file, cs, n, s1.idx));
                } else {
                    assert(s2.diagnostics[k].code == "RYL0003"@ || s2.diagnostics[k].code
                        == "RYL0004"@);
                }
            }
        }
    } else {
        assert(steps(file, cs, n + 1) == s);
        assert forall|k: int|
            0 <= k < s.diagnostics.len() && (#[trigger] s.diagnostics[k]).code == "RYL0001"@
                implies exists|p: int, m: nat|
            m < n + 1 && cs[p] == '\t' && #[trigger] read_as_code_at(file, cs, m, p) && s.diagnostics[k]
                == tab_error(file, cs, p) by {
            let (p, m) = choose|p: int, m: nat|
                m < n && cs[p] == '\t' && #[trigger] read_as_code_at(file, cs, m, p) && s.diagnostics[k]
                    == tab_error(file, cs, p);
            assert(read_as_code_at(file, cs, m, p));
        }
    }
}

proof fn lemma_tabs_upto(file: FileId, cs: Seq<char>, n: nat)
    ensures
        tabs_reported(file, cs, n),
    decreases n,
{
    if n == 0 {
        assert(steps(file, cs, 0).diagnostics.len() == 0);
    } else {
        lemma_tabs_upto(file, cs, (n - 1) as nat);
        lemma_tabs_step(file, cs, (n - 1) as nat);
    }
}

/// Tabs are rejected: every tab that is not inside a string literal or a
/// comment is reported as `RYL0001` over exactly that character, and every
/// `RYL0001` is the report of such a tab.
pub proof fn lex_reports_tabs(file: FileId, cs: Seq<char>)
    ensures
        forall|p: int|
            0 <= p < cs.len() && cs[p] == '\t' && !in_string_or_comment(file, cs, p)
                ==> lex_source(file, cs).diagnostics.contains(#[trigger] tab_error(file, cs, p)),
        forall|k: int|
            0 <= k < lex_source(file, cs).diagnostics.len() && (
            #[trigger] lex_source(file, cs).diagnostics[k]).code == "RYL0001"@ ==> exists|p: int|
                0 <= p < cs.len() && cs[p] == '\t' && !in_string_or_comment(file, cs, p)
                    && lex_source(file, cs).diagnostics[k] == #[trigger] tab_error(file, cs, p),
{
    lemma_steps_end(file, cs);
    lemma_tabs_upto(file, cs, cs.len());
    let s = steps(file, cs, cs.len());
    assert(lex_source(file, cs).diagnostics == s.diagnostics);
    assert forall|k: int|
        0 <= k < s.diagnostics.len() && (#[trigger] s.diagnostics[k]).code == "RYL0001"@
            implies exists|p: int|
        0 <= p < cs.len() && cs[p] == '\t' && !in_string_or_comment(file, cs, p)
            && s.diagnostics[k] == #[trigger] tab_error(file, cs, p) by {
        let (p, m) = choose|p: int, m: nat|
            m < cs.len() && cs[p] == '\t' && #[trigger] read_as_code_at(file, cs, m, p) && s.diagnostics[k]
                == tab_error(file, cs, p);
        lemma_code_not_in_string(file, cs, m, p);
    }
}

} // verus!
