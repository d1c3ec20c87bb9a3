//! Properties of every parse the bootstrap parser produces.
use vstd::prelude::*;
use crate::ast::{DiagnosticView, FileId, ItemView, ModuleView, ParamView, Span};
use crate::parser::{lemma_chars_bound, MAX_SOURCE_BYTES};
use crate::parser_spec::{
    byte_span, comment_start, content_end, depth_after, error, top_comma, text_end, is_name, line_break_end, param_ranges, parse_from, span_at,
    trimmed_range,
    parse_function_header, parse_line, parse_newtype, parse_param, parse_params, parse_source,
    ParseState,
};
use crate::strings::{
    find_from, index_of, index_of_from, is_trimmed, last_index_of, lemma_trimmed_is_own_trim, lemma_find_occurs, lemma_index_of_from,
    lemma_last_index_of_to, lemma_trim,
    space_end, starts_with, trim,
};
use crate::token::keyword;
use crate::text::{byte_offset, is_whitespace, lemma_byte_offset_mono, utf8_len};

verus! {

/// Node identifiers of a parameter, in the order the parser hands them out.
pub open spec fn param_ids(p: ParamView) -> Seq<int> {
    seq![p.id.0 as int, p.name.id.0 as int, p.annotation.id.0 as int]
}

/// Node identifiers of the parameters `ps`, in the order the parser hands them out.
pub open spec fn params_ids(ps: Seq<ParamView>) -> Seq<int>
    decreases ps.len(),
{
    if ps.len() == 0 {
        Seq::empty()
    } else {
        param_ids(ps[0]) + params_ids(ps.drop_first())
    }
}

/// Node identifiers of an item, in the order the parser hands them out:
/// a function's parameters come before the function itself.
pub open spec fn item_ids(it: ItemView) -> Seq<int> {
    match it {
        ItemView::Newtype(d) => seq![d.id.0 as int, d.name.id.0 as int, d.underlying.id.0 as int],
        ItemView::Function(f) => params_ids(f.params) + seq![
            f.id.0 as int,
            f.name.id.0 as int,
            f.return_type.id.0 as int,
        ],
    }
}

/// Node identifiers of the items `items`, item after item.
pub open spec fn items_ids(items: Seq<ItemView>) -> Seq<int>
    decreases items.len(),
{
    if items.len() == 0 {
        Seq::empty()
    } else {
        items_ids(items.drop_last()) + item_ids(items.last())
    }
}

/// Node identifiers of a module: those of its items, then its own.
pub open spec fn module_ids(m: ModuleView) -> Seq<int> {
    items_ids(m.items).push(m.id.0 as int)
}

/// Every element of `s` is larger than the ones before it.
pub open spec fn increasing(s: Seq<int>) -> bool {
    forall|a: int, b: int| 0 <= a < b < s.len() ==> s[a] < s[b]
}

/// `s` increases and lies in `lo..hi`.
pub open spec fn numbered(s: Seq<int>, lo: int, hi: int) -> bool {
    &&& increasing(s)
    &&& forall|a: int| 0 <= a < s.len() ==> lo <= #[trigger] s[a] < hi
}

proof fn lemma_numbered_concat(a: Seq<int>, b: Seq<int>, lo: int, mid: int, hi: int)
    requires
        numbered(a, lo, mid),
        numbered(b, mid, hi),
        lo <= mid <= hi,
    ensures
        numbered(a + b, lo, hi),
{
    let ab = a + b;
    assert forall|x: int| 0 <= x < ab.len() implies lo <= #[trigger] ab[x] < hi by {
        if x >= a.len() {
            assert(ab[x] == b[x - a.len()]);
        } else {
            assert(ab[x] == a[x]);
        }
    }
    assert forall|x: int, y: int| 0 <= x < y < ab.len() implies ab[x] < ab[y] by {
        if x >= a.len() {
            assert(ab[x] == b[x - a.len()]);
            assert(ab[y] == b[y - a.len()]);
        } else if y >= a.len() {
            assert(ab[y] == b[y - a.len()]);
        }
    }
}

proof fn lemma_items_ids_push(items: Seq<ItemView>, it: ItemView)
    ensures
        items_ids(items.push(it)) == items_ids(items) + item_ids(it),
{
    assert(items.push(it).drop_last() =~= items);
}

/// Total number of characters of the ranges `rs`.
pub open spec fn ranges_len(rs: Seq<(int, int)>) -> int
    decreases rs.len(),
{
    if rs.len() == 0 {
        0
    } else {
        (rs[0].1 - rs[0].0) + ranges_len(rs.drop_first())
    }
}

/// Every range of `rs` lies in `a..b`, start before end.
pub open spec fn ranges_within(rs: Seq<(int, int)>, a: int, b: int) -> bool {
    forall|k: int| 0 <= k < rs.len() ==> a <= (#[trigger] rs[k]).0 <= rs[k].1 <= b
}

/// The trimmed part of `cs[a..b]` lies inside it.
proof fn lemma_trimmed_range(cs: Seq<char>, a: int, b: int)
    requires
        0 <= a <= b <= cs.len(),
    ensures
        a <= trimmed_range(cs, a, b).0 <= trimmed_range(cs, a, b).1 <= b,
        cs.subrange(trimmed_range(cs, a, b).0, trimmed_range(cs, a, b).1) == trim(
            cs.subrange(a, b),
        ),
        is_trimmed(cs.subrange(trimmed_range(cs, a, b).0, trimmed_range(cs, a, b).1)),
        trim(cs.subrange(trimmed_range(cs, a, b).0, trimmed_range(cs, a, b).1)) == cs.subrange(
            trimmed_range(cs, a, b).0,
            trimmed_range(cs, a, b).1,
        ),
{
    let t = cs.subrange(a, b);
    lemma_trim(t);
    let (x, y) = trimmed_range(cs, a, b);
    assert(t.subrange(x - a, y - a) =~= cs.subrange(x, y));
    lemma_trimmed_is_own_trim(cs.subrange(x, y));
}

proof fn lemma_ranges_len_nonneg(rs: Seq<(int, int)>, a: int, b: int)
    requires
        ranges_within(rs, a, b),
    ensures
        ranges_len(rs) >= 0,
        rs.len() > 0 ==> ranges_within(rs.drop_first(), a, b),
    decreases rs.len(),
{
    if rs.len() > 0 {
        assert forall|k: int| 0 <= k < rs.drop_first().len() implies a <= (
        #[trigger] rs.drop_first()[k]).0 <= rs.drop_first()[k].1 <= b by {
            assert(rs.drop_first()[k] == rs[k + 1]);
        }
        lemma_ranges_len_nonneg(rs.drop_first(), a, b);
    }
}

/// Splitting `cs[a..b]` at its top-level commas gives ranges inside it, no more characters than it has.
proof fn lemma_param_ranges(cs: Seq<char>, a: int, b: int)
    requires
        0 <= a <= b <= cs.len(),
    ensures
        ranges_len(param_ranges(cs, a, b)) <= b - a,
        ranges_within(param_ranges(cs, a, b), a, b),
    decreases b - a,
{
    if a < b {
        crate::parser_spec::lemma_top_comma(cs, a, b, 0);
        match crate::parser_spec::top_comma(cs, a, b, 0) {
            None => {
                lemma_trimmed_range(cs, a, b);
                let (x, y) = trimmed_range(cs, a, b);
                if x < y {
                    assert(seq![(x, y)].drop_first() =~= Seq::<(int, int)>::empty());
                    assert(ranges_len(Seq::<(int, int)>::empty()) == 0);
                }
            },
            Some(k) => {
                lemma_trimmed_range(cs, a, k);
                lemma_param_ranges(cs, k + 1, b);
                let rest = param_ranges(cs, k + 1, b);
                let (x, y) = trimmed_range(cs, a, k);
                if x < y {
                    let all = seq![(x, y)] + rest;
                    assert(all.drop_first() =~= rest);
                    assert(all[0] == (x, y));
                    assert forall|m: int| 0 <= m < all.len() implies a <= (#[trigger] all[m]).0
                        <= all[m].1 <= b by {
                        if m > 0 {
                            assert(all[m] == rest[m - 1]);
                        }
                    }
                } else {
                    assert(Seq::<(int, int)>::empty() + rest =~= rest);
                }
            },
        }
    }
}

/// A parameter that parses has a name, a `:` and an annotation: three characters at least.
proof fn lemma_param_len(file: FileId, cs: Seq<char>, ls: int, le: int, a: int, b: int, next: nat)
    requires
        0 <= a <= b <= cs.len(),
    ensures
        ({
            let p = parse_param(file, cs, ls, le, a, b, next);
            &&& p.value is Some ==> b - a >= 3 && p.next == next + 3
            &&& p.value is None ==> p.next == next && p.diagnostics.len() == 1
        }),
{
    lemma_index_of_from(cs.subrange(a, b), ':', 0);
    if let Some(c) = index_of(cs.subrange(a, b), ':') {
        lemma_trimmed_range(cs, a, a + c);
        lemma_trimmed_range(cs, a + c + 1, b);
    }
}

proof fn lemma_params_ids(
    file: FileId,
    cs: Seq<char>,
    ls: int,
    le: int,
    ranges: Seq<(int, int)>,
    next: nat,
)
    requires
        ranges_within(ranges, 0, cs.len() as int),
        next + ranges_len(ranges) <= u32::MAX,
    ensures
        ({
            let p = parse_params(file, cs, ls, le, ranges, next);
            &&& next <= p.next <= next + ranges_len(ranges)
            &&& p.value matches Some(ps) ==> numbered(params_ids(ps), next as int, p.next as int)
                && p.next == next + 3 * ps.len() && p.diagnostics.len() == 0
            &&& p.value is None ==> p.diagnostics.len() == 1
        }),
    decreases ranges.len(),
{
    lemma_ranges_len_nonneg(ranges, 0, cs.len() as int);
    if ranges.len() > 0 {
        let first = parse_param(file, cs, ls, le, ranges[0].0, ranges[0].1, next);
        lemma_param_len(file, cs, ls, le, ranges[0].0, ranges[0].1, next);
        lemma_ranges_len_nonneg(ranges.drop_first(), 0, cs.len() as int);
        if let Some(param) = first.value {
            lemma_params_ids(file, cs, ls, le, ranges.drop_first(), first.next);
            let rest = parse_params(file, cs, ls, le, ranges.drop_first(), first.next);
            if let Some(ps) = rest.value {
                assert((seq![param] + ps).drop_first() =~= ps);
                assert(param_ids(param) =~= seq![next as int, next + 1int, next + 2int]);
                lemma_numbered_concat(
                    param_ids(param),
                    params_ids(ps),
                    next as int,
                    next + 3int,
                    rest.next as int,
                );
            }
        }
    }
}

proof fn lemma_newtype_ids(file: FileId, cs: Seq<char>, ls: int, le: int, next: nat)
    requires
        0 <= ls <= le <= cs.len(),
        next + (le - ls) <= u32::MAX,
    ensures
        ({
            let p = parse_newtype(file, cs, ls, le, next);
            &&& p.value is None ==> p.next == next
            &&& p.value matches Some(d) ==> p.next == next + 3 && p.next <= next + (le - ls)
                && numbered(item_ids(ItemView::Newtype(d)), next as int, next + 3int)
        }),
{
    reveal_strlit("newtype ");
}

/// What a header parse hands out: `3 + 3·params` node identifiers, in
/// increasing order, no more than the line has characters.
proof fn lemma_function_ids(file: FileId, cs: Seq<char>, ls: int, le: int, next: nat)
    requires
        0 <= ls <= le <= cs.len(),
        next + (le - ls) <= u32::MAX,
    ensures
        ({
            let p = parse_function_header(file, cs, ls, le, next);
            &&& next <= p.next <= next + (le - ls)
            &&& p.value matches Some(f) ==> numbered(
                item_ids(ItemView::Function(f)),
                next as int,
                p.next as int,
            ) && p.next == next + 3 * f.params.len() + 3
        }),
{
    reveal_strlit("async fn ");
    reveal_strlit("fn ");
    reveal_strlit("->");
    let line = cs.subrange(ls, le);
    let is_async = starts_with(line, "async fn "@);
    if is_async || starts_with(line, "fn "@) {
        let rs = ls + if is_async { 9int } else { 3int };
        let rest = cs.subrange(rs, le);
        lemma_find_occurs(rest, "->"@);
        if let Some(r) = crate::strings::find(rest, "->"@) {
            let signature = cs.subrange(rs, rs + r);
            lemma_index_of_from(signature, '(', 0);
            lemma_last_index_of_to(signature, ')', signature.len() - 1);
            if let (Some(open), Some(close)) = (
                index_of(signature, '('),
                crate::strings::last_index_of(signature, ')'),
            ) {
                if open < close {
                    let ranges = param_ranges(cs, rs + open + 1, rs + close);
                    lemma_param_ranges(cs, rs + open + 1, rs + close);
                    assert forall|k: int| 0 <= k < ranges.len() implies 0 <= (
                    #[trigger] ranges[k]).0 <= ranges[k].1 <= cs.len() by {}
                    lemma_params_ids(file, cs, ls, le, ranges, next);
                    let ps = parse_params(file, cs, ls, le, ranges, next);
                    if let Some(params) = ps.value {
                        let p = parse_function_header(file, cs, ls, le, next);
                        if let Some(f) = p.value {
                            assert(f.params == params);
                            assert(p.next == ps.next + 3);
                            lemma_numbered_concat(
                                params_ids(params),
                                seq![ps.next as int, ps.next + 1int, ps.next + 2int],
                                next as int,
                                ps.next as int,
                                p.next as int,
                            );
                        }
                    }
                }
            }
        }
    }
}

proof fn lemma_text_end(cs: Seq<char>, i: int, e: int)
    requires
        i <= e,
    ensures
        i <= text_end(cs, i, e) <= e,
    decreases e - i,
{
    if e > i && (cs[e - 1] == '\n' || cs[e - 1] == '\r') {
        lemma_text_end(cs, i, e - 1);
    }
}

proof fn lemma_comment_start(cs: Seq<char>, i: int, e: int, quote: Option<char>)
    requires
        0 <= i <= e <= cs.len(),
    ensures
        i <= comment_start(cs, i, e, quote) <= e,
    decreases e - i,
{
    if i < e {
        match quote {
            None => {
                if cs[i] != '#' {
                    if cs[i] == '"' || cs[i] == '\'' {
                        lemma_comment_start(cs, i + 1, e, Some(cs[i]));
                    } else {
                        lemma_comment_start(cs, i + 1, e, None);
                    }
                }
            },
            Some(q) => {
                if cs[i] == '\\' && i + 1 < e {
                    lemma_comment_start(cs, i + 2, e, quote);
                } else if cs[i] == q {
                    lemma_comment_start(cs, i + 1, e, None);
                } else {
                    lemma_comment_start(cs, i + 1, e, quote);
                }
            },
        }
    }
}

proof fn lemma_content_end(cs: Seq<char>, i: int, e: int)
    requires
        0 <= i <= e <= cs.len(),
    ensures
        i <= content_end(cs, i, e) <= e,
{
    lemma_text_end(cs, i, e);
    lemma_comment_start(cs, i, text_end(cs, i, e), None);
}

/// The line after position `i` ends after `i` and within the source.
proof fn lemma_line_break_end(cs: Seq<char>, i: int)
    requires
        0 <= i < cs.len(),
    ensures
        i < line_break_end(cs, i) <= cs.len(),
{
    lemma_index_of_from(cs, '\n', i);
}

proof fn lemma_line_ids(file: FileId, cs: Seq<char>, i: int, e: int, st: ParseState)
    requires
        0 <= i <= e <= cs.len(),
        st.next + (e - i) <= u32::MAX,
        numbered(items_ids(st.items), 0, st.next as int),
    ensures
        ({
            let r = parse_line(file, cs, i, e, st);
            &&& st.next <= r.next <= st.next + (e - i)
            &&& numbered(items_ids(r.items), 0, r.next as int)
        }),
{
    let line = cs.subrange(i, e);
    let trimmed = trim(line);
    lemma_trim(line);
    let te = i + trimmed.len();
    let r = parse_line(file, cs, i, e, st);
    if r != st {
        lemma_newtype_ids(file, cs, i, te, st.next);
        let nt = parse_newtype(file, cs, i, te, st.next);
        if let Some(d) = nt.value {
            lemma_items_ids_push(st.items, ItemView::Newtype(d));
            lemma_numbered_concat(
                items_ids(st.items),
                item_ids(ItemView::Newtype(d)),
                0,
                st.next as int,
                nt.next as int,
            );
        } else {
            lemma_function_ids(file, cs, i, te, st.next);
            let fh = parse_function_header(file, cs, i, te, st.next);
            if let Some(f) = fh.value {
                lemma_items_ids_push(st.items, ItemView::Function(f));
                lemma_numbered_concat(
                    items_ids(st.items),
                    item_ids(ItemView::Function(f)),
                    0,
                    st.next as int,
                    fh.next as int,
                );
            }
        }
    }
}

proof fn lemma_from_ids(file: FileId, cs: Seq<char>, i: int, st: ParseState)
    requires
        0 <= i <= cs.len(),
        st.next + (cs.len() - i) <= u32::MAX,
        numbered(items_ids(st.items), 0, st.next as int),
    ensures
        ({
            let r = parse_from(file, cs, i, st);
            &&& st.next <= r.next <= st.next + (cs.len() - i)
            &&& numbered(items_ids(r.items), 0, r.next as int)
        }),
    decreases cs.len() - i,
{
    if i < cs.len() {
        let e = line_break_end(cs, i);
        lemma_line_break_end(cs, i);
        let ce = content_end(cs, i, e);
        lemma_content_end(cs, i, e);
        lemma_line_ids(file, cs, i, ce, st);
        lemma_from_ids(file, cs, e, parse_line(file, cs, i, ce, st));
    }
}

/// Node identifiers are handed out in increasing order, so no two nodes of
/// a parse share one: listed item after item (a function's parameters
/// before the function) and the module's last, they strictly increase.
pub proof fn parse_node_ids_increase(file: FileId, cs: Seq<char>)
    requires
        utf8_len(cs) <= MAX_SOURCE_BYTES,
    ensures
        increasing(module_ids(parse_source(file, cs).module)),
        forall|a: int, b: int|
            0 <= a < module_ids(parse_source(file, cs).module).len() && 0 <= b < module_ids(
                parse_source(file, cs).module,
            ).len() && a != b ==> module_ids(parse_source(file, cs).module)[a] != module_ids(
                parse_source(file, cs).module,
            )[b],
{
    lemma_chars_bound(cs);
    let init = ParseState { items: Seq::empty(), next: 0, diagnostics: Seq::empty() };
    assert(items_ids(init.items) =~= Seq::<int>::empty());
    lemma_from_ids(file, cs, 0, init);
    let st = parse_from(file, cs, 0, init);
    let ids = module_ids(parse_source(file, cs).module);
    assert(ids == items_ids(st.items).push(st.next as int));
    assert forall|a: int, b: int| 0 <= a < b < ids.len() implies ids[a] < ids[b] by {
        if b == ids.len() - 1 {
            assert(ids[a] == items_ids(st.items)[a]);
        } else {
            assert(ids[a] == items_ids(st.items)[a]);
            assert(ids[b] == items_ids(st.items)[b]);
        }
    }
}

/// The codes the parser reports.
pub open spec fn is_parser_code(code: Seq<char>) -> bool {
    ||| code == "RYP0001"@
    ||| code == "RYP0002"@
    ||| code == "RYP0003"@
    ||| code == "RYP0101"@
    ||| code == "RYP0102"@
    ||| code == "RYP0201"@
    ||| code == "RYP0202"@
    ||| code == "RYP0203"@
    ||| code == "RYP0204"@
    ||| code == "RYP0205"@
    ||| code == "RYP0206"@
    ||| code == "RYP0207"@
    ||| code == "RYP0208"@
}

/// `s` is a range of file `file` inside its first `bound` bytes.
pub open spec fn span_within(s: Span, file: FileId, bound: int) -> bool {
    s.file == file && s.start <= s.end && s.end <= bound
}

/// Every diagnostic has a parser code and a span of file `file` inside its first `bound` bytes.
pub open spec fn parser_diagnostics_within(file: FileId, ds: Seq<DiagnosticView>, bound: int) -> bool {
    forall|a: int|
        0 <= a < ds.len() ==> is_parser_code((#[trigger] ds[a]).code) && span_within(
            ds[a].span,
            file,
            bound,
        )
}

/// A parameter has a name and a type annotation, already trimmed, and its
/// spans lie inside the first `bound` bytes of file `file`.
pub open spec fn param_well_formed(p: ParamView, file: FileId, bound: int) -> bool {
    &&& is_name(p.name.name)
    &&& p.annotation.text.len() > 0
    &&& trim(p.annotation.text) == p.annotation.text
    &&& span_within(p.span, file, bound)
    &&& span_within(p.name.span, file, bound)
    &&& span_within(p.annotation.span, file, bound)
}

/// An item as the grammar has it: names are identifiers (not reserved
/// words), a newtype's type and every parameter's annotation are not empty
/// and already trimmed, a function has a return type, also trimmed; and
/// every span of the item lies inside the first `bound` bytes of file `file`.
pub open spec fn item_well_formed(it: ItemView, file: FileId, bound: int) -> bool {
    match it {
        ItemView::Newtype(d) => {
            &&& is_name(d.name.name)
            &&& d.underlying.text.len() > 0
            &&& trim(d.underlying.text) == d.underlying.text
            &&& span_within(d.span, file, bound)
            &&& span_within(d.name.span, file, bound)
            &&& span_within(d.underlying.span, file, bound)
        },
        ItemView::Function(f) => {
            &&& is_name(f.name.name)
            &&& f.return_type.text.len() > 0
            &&& trim(f.return_type.text) == f.return_type.text
            &&& span_within(f.span, file, bound)
            &&& span_within(f.name.span, file, bound)
            &&& span_within(f.return_type.span, file, bound)
            &&& forall|k: int|
                0 <= k < f.params.len() ==> param_well_formed(#[trigger] f.params[k], file, bound)
        },
    }
}

/// What holds of every parse state: well-formed items and parser diagnostics inside the source.
pub open spec fn state_ok(file: FileId, cs: Seq<char>, st: ParseState) -> bool {
    &&& forall|k: int|
        0 <= k < st.items.len() ==> item_well_formed(#[trigger] st.items[k], file, utf8_len(cs) as int)
    &&& parser_diagnostics_within(file, st.diagnostics, utf8_len(cs) as int)
}

/// The span of the characters `a..b` lies inside the source.
proof fn lemma_byte_span_within(file: FileId, cs: Seq<char>, a: int, b: int)
    requires
        0 <= a <= b <= cs.len(),
        utf8_len(cs) <= usize::MAX,
    ensures
        span_within(
            byte_span(file, byte_offset(cs, a) as int, byte_offset(cs, b) as int),
            file,
            utf8_len(cs) as int,
        ),
{
    lemma_byte_offset_mono(cs, a, b);
    lemma_byte_offset_mono(cs, b, cs.len() as int);
    assert(cs.take(cs.len() as int) =~= cs);
}

proof fn lemma_param_ok(file: FileId, cs: Seq<char>, ls: int, le: int, a: int, b: int, next: nat)
    requires
        0 <= ls <= le <= cs.len(),
        0 <= a <= b <= cs.len(),
        utf8_len(cs) <= usize::MAX,
    ensures
        ({
            let p = parse_param(file, cs, ls, le, a, b, next);
            &&& parser_diagnostics_within(file, p.diagnostics, utf8_len(cs) as int)
            &&& p.value matches Some(x) ==> param_well_formed(x, file, utf8_len(cs) as int)
        }),
{
    lemma_byte_span_within(file, cs, ls, le);
    lemma_byte_span_within(file, cs, a, b);
    lemma_index_of_from(cs.subrange(a, b), ':', 0);
    if let Some(c) = index_of(cs.subrange(a, b), ':') {
        lemma_trimmed_range(cs, a, a + c);
        lemma_trimmed_range(cs, a + c + 1, b);
        let (ns, ne) = trimmed_range(cs, a, a + c);
        let (ys, ye) = trimmed_range(cs, a + c + 1, b);
        lemma_byte_span_within(file, cs, ns, ne);
        lemma_byte_span_within(file, cs, ys, ye);
    }
}

proof fn lemma_params_ok(
    file: FileId,
    cs: Seq<char>,
    ls: int,
    le: int,
    ranges: Seq<(int, int)>,
    next: nat,
)
    requires
        0 <= ls <= le <= cs.len(),
        ranges_within(ranges, 0, cs.len() as int),
        utf8_len(cs) <= usize::MAX,
    ensures
        ({
            let p = parse_params(file, cs, ls, le, ranges, next);
            &&& parser_diagnostics_within(file, p.diagnostics, utf8_len(cs) as int)
            &&& p.value matches Some(ps) ==> forall|k: int|
                0 <= k < ps.len() ==> param_well_formed(#[trigger] ps[k], file, utf8_len(cs) as int)
        }),
    decreases ranges.len(),
{
    if ranges.len() > 0 {
        lemma_ranges_len_nonneg(ranges, 0, cs.len() as int);
        lemma_param_ok(file, cs, ls, le, ranges[0].0, ranges[0].1, next);
        let first = parse_param(file, cs, ls, le, ranges[0].0, ranges[0].1, next);
        if let Some(param) = first.value {
            lemma_params_ok(file, cs, ls, le, ranges.drop_first(), first.next);
            let rest = parse_params(file, cs, ls, le, ranges.drop_first(), first.next);
            if let Some(ps) = rest.value {
                let all = seq![param] + ps;
                assert forall|k: int| 0 <= k < all.len() implies param_well_formed(
                    #[trigger] all[k],
                    file,
                    utf8_len(cs) as int,
                ) by {
                    if k > 0 {
                        assert(all[k] == ps[k - 1]);
                    }
                }
            }
        }
    }
}

proof fn lemma_newtype_ok(file: FileId, cs: Seq<char>, ls: int, le: int, next: nat)
    requires
        0 <= ls <= le <= cs.len(),
        utf8_len(cs) <= usize::MAX,
    ensures
        ({
            let p = parse_newtype(file, cs, ls, le, next);
            &&& parser_diagnostics_within(file, p.diagnostics, utf8_len(cs) as int)
            &&& p.value matches Some(d) ==> item_well_formed(
                ItemView::Newtype(d),
                file,
                utf8_len(cs) as int,
            )
        }),
{
    reveal_strlit("newtype ");
    lemma_byte_span_within(file, cs, ls, le);
    if starts_with(cs.subrange(ls, le), "newtype "@) {
        let rs = ls + 8;
        lemma_index_of_from(cs.subrange(rs, le), '=', 0);
        if let Some(r) = index_of(cs.subrange(rs, le), '=') {
            lemma_trimmed_range(cs, rs, rs + r);
            lemma_trimmed_range(cs, rs + r + 1, le);
            let (ns, ne) = trimmed_range(cs, rs, rs + r);
            let (ys, ye) = trimmed_range(cs, rs + r + 1, le);
            lemma_byte_span_within(file, cs, ns, ne);
            lemma_byte_span_within(file, cs, ys, ye);
        }
    }
}

proof fn lemma_function_ok(file: FileId, cs: Seq<char>, ls: int, le: int, next: nat)
    requires
        0 <= ls <= le <= cs.len(),
        utf8_len(cs) <= usize::MAX,
    ensures
        ({
            let p = parse_function_header(file, cs, ls, le, next);
            &&& parser_diagnostics_within(file, p.diagnostics, utf8_len(cs) as int)
            &&& p.value matches Some(f) ==> item_well_formed(
                ItemView::Function(f),
                file,
                utf8_len(cs) as int,
            )
        }),
{
    reveal_strlit("async fn ");
    reveal_strlit("fn ");
    reveal_strlit("->");
    lemma_byte_span_within(file, cs, ls, le);
    let line = cs.subrange(ls, le);
    let is_async = starts_with(line, "async fn "@);
    if is_async || starts_with(line, "fn "@) {
        let rs = ls + if is_async { 9int } else { 3int };
        let rest = cs.subrange(rs, le);
        lemma_find_occurs(rest, "->"@);
        if let Some(r) = crate::strings::find(rest, "->"@) {
            let rc = rs + r + 2;
            if rc < le {
                lemma_trimmed_range(cs, rc, le - 1);
                let (ys, ye) = trimmed_range(cs, rc, le - 1);
                lemma_byte_span_within(file, cs, ys, ye);
            }
            let signature = cs.subrange(rs, rs + r);
            lemma_index_of_from(signature, '(', 0);
            lemma_last_index_of_to(signature, ')', signature.len() - 1);
            if let (Some(open), Some(close)) = (
                index_of(signature, '('),
                crate::strings::last_index_of(signature, ')'),
            ) {
                if open < close {
                    lemma_trimmed_range(cs, rs, rs + open);
                    let (ns, ne) = trimmed_range(cs, rs, rs + open);
                    lemma_byte_span_within(file, cs, ns, ne);
                    let ranges = param_ranges(cs, rs + open + 1, rs + close);
                    lemma_param_ranges(cs, rs + open + 1, rs + close);
                    assert forall|k: int| 0 <= k < ranges.len() implies 0 <= (
                    #[trigger] ranges[k]).0 <= ranges[k].1 <= cs.len() by {}
                    lemma_params_ok(file, cs, ls, le, ranges, next);
                }
            }
        }
    }
}

proof fn lemma_line_ok(file: FileId, cs: Seq<char>, i: int, e: int, st: ParseState)
    requires
        0 <= i <= e <= cs.len(),
        utf8_len(cs) <= usize::MAX,
        state_ok(file, cs, st),
    ensures
        state_ok(file, cs, parse_line(file, cs, i, e, st)),
{
    let line = cs.subrange(i, e);
    let trimmed = trim(line);
    lemma_trim(line);
    let te = i + trimmed.len();
    let ts = i + crate::strings::space_end(line, 0);
    lemma_byte_span_within(file, cs, ts, e);
    let bound = utf8_len(cs) as int;
    lemma_newtype_ok(file, cs, i, te, st.next);
    let nt = parse_newtype(file, cs, i, te, st.next);
    lemma_function_ok(file, cs, i, te, nt.next);
    let fh = parse_function_header(file, cs, i, te, nt.next);
    let ds = st.diagnostics + nt.diagnostics + fh.diagnostics;
    assert(parser_diagnostics_within(file, st.diagnostics + nt.diagnostics, bound)) by {
        let d1 = st.diagnostics + nt.diagnostics;
        assert forall|a: int| 0 <= a < d1.len() implies is_parser_code((#[trigger] d1[a]).code)
            && span_within(d1[a].span, file, bound) by {
            if a >= st.diagnostics.len() {
                assert(d1[a] == nt.diagnostics[a - st.diagnostics.len()]);
            } else {
                assert(d1[a] == st.diagnostics[a]);
            }
        }
    }
    assert(parser_diagnostics_within(file, ds, bound)) by {
        let d1 = st.diagnostics + nt.diagnostics;
        assert forall|a: int| 0 <= a < ds.len() implies is_parser_code((#[trigger] ds[a]).code)
            && span_within(ds[a].span, file, bound) by {
            if a >= d1.len() {
                assert(ds[a] == fh.diagnostics[a - d1.len()]);
            } else {
                assert(ds[a] == d1[a]);
            }
        }
    }
    let r = parse_line(file, cs, i, e, st);
    assert forall|k: int| 0 <= k < r.items.len() implies item_well_formed(#[trigger] r.items[k], file, utf8_len(cs) as int) by {
        if k < st.items.len() {
            assert(r.items[k] == st.items[k]);
        }
    }
}

proof fn lemma_from_ok(file: FileId, cs: Seq<char>, i: int, st: ParseState)
    requires
        0 <= i <= cs.len(),
        utf8_len(cs) <= usize::MAX,
        state_ok(file, cs, st),
    ensures
        state_ok(file, cs, parse_from(file, cs, i, st)),
    decreases cs.len() - i,
{
    if i < cs.len() {
        let e = line_break_end(cs, i);
        lemma_line_break_end(cs, i);
        let ce = content_end(cs, i, e);
        lemma_content_end(cs, i, e);
        lemma_line_ok(file, cs, i, ce, st);
        lemma_from_ok(file, cs, e, parse_line(file, cs, i, ce, st));
    }
}

proof fn lemma_source_ok(file: FileId, cs: Seq<char>)
    requires
        utf8_len(cs) <= MAX_SOURCE_BYTES,
    ensures
        state_ok(
            file,
            cs,
            parse_from(file, cs, 0, ParseState { items: Seq::empty(), next: 0, diagnostics: Seq::empty() }),
        ),
{
    lemma_from_ok(file, cs, 0, ParseState { items: Seq::empty(), next: 0, diagnostics: Seq::empty() });
}

/// Every diagnostic of a parse has one of the parser's codes and a span
/// of the parsed file that lies inside the source, and the module spans
/// the whole source.
pub proof fn parse_diagnostics_within_source(file: FileId, cs: Seq<char>)
    requires
        utf8_len(cs) <= MAX_SOURCE_BYTES,
    ensures
        parser_diagnostics_within(file, parse_source(file, cs).diagnostics, utf8_len(cs) as int),
        parse_source(file, cs).module.span == (Span { file, start: 0, end: utf8_len(cs) as usize }),
{
    lemma_source_ok(file, cs);
}

/// Every item a parse yields is well formed: its names are identifiers
/// that are not reserved words; a newtype's type, each parameter's
/// annotation and a function's return type are not empty; and the spans of
/// the item, its name, its type or return type and each parameter, name and
/// annotation are spans of the parsed file inside the source.
pub proof fn parse_items_well_formed(file: FileId, cs: Seq<char>)
    requires
        utf8_len(cs) <= MAX_SOURCE_BYTES,
    ensures
        forall|k: int|
            0 <= k < parse_source(file, cs).module.items.len() ==> item_well_formed(
                #[trigger] parse_source(file, cs).module.items[k],
                file,
                utf8_len(cs) as int,
            ),
{
    lemma_source_ok(file, cs);
}

/// The line `line` begins with white space: it belongs to a body.
pub open spec fn indented(line: Seq<char>) -> bool {
    line.len() > 0 && is_whitespace(line[0])
}

/// The text of the line `cs[i..e]` without surrounding white space.
pub open spec fn line_text(cs: Seq<char>, i: int, e: int) -> Seq<char> {
    trim(cs.subrange(i, e))
}

/// The span the parser gives a diagnostic about the line `cs[i..e]`:
/// from its first character that is not white space to its end.
pub open spec fn line_span(file: FileId, cs: Seq<char>, i: int, e: int) -> Span {
    byte_span(
        file,
        byte_offset(cs, i + space_end(cs.subrange(i, e), 0)) as int,
        byte_offset(cs, e) as int,
    )
}

/// A line that is blank, a comment, or indented without a tab, changes
/// nothing: bodies are left to later phases.
pub proof fn parse_skips_blank_comment_and_body_lines(
    file: FileId,
    cs: Seq<char>,
    i: int,
    e: int,
    st: ParseState,
)
    requires
        0 <= i <= e <= cs.len(),
        ({
            let text = line_text(cs, i, e);
            ||| text.len() == 0
            ||| text[0] == '#'
            ||| indented(cs.subrange(i, e)) && index_of(cs.subrange(i, e), '\t') is None
        }),
    ensures
        parse_line(file, cs, i, e, st) == st,
{
    let line = cs.subrange(i, e);
    lemma_trim(line);
    if indented(line) {
        crate::strings::lemma_space_end(line, 1);
        assert(space_end(line, 0) > 0);
    }
}

/// A line that is not blank and not a comment, and holds a tab, adds the
/// diagnostic RYP0001 and nothing else.
pub proof fn parse_rejects_tabs(file: FileId, cs: Seq<char>, i: int, e: int, st: ParseState)
    requires
        0 <= i <= e <= cs.len(),
        line_text(cs, i, e).len() > 0,
        line_text(cs, i, e)[0] != '#',
        index_of(cs.subrange(i, e), '\t') is Some,
    ensures
        parse_line(file, cs, i, e, st) == (ParseState {
            diagnostics: st.diagnostics.push(
                error(
                    "RYP0001"@,
                    "tabs are not allowed in Rustype v0 source"@,
                    line_span(file, cs, i, e),
                ),
            ),
            ..st
        }),
{
}

/// A line that is not indented, holds no tab and whose text starts with
/// Python's `def ` or `async def ` adds the diagnostic RYP0002 and nothing
/// else: no item, and no node identifier used.
pub proof fn parse_rejects_python_def(file: FileId, cs: Seq<char>, i: int, e: int, st: ParseState)
    requires
        0 <= i <= e <= cs.len(),
        !indented(cs.subrange(i, e)),
        index_of(cs.subrange(i, e), '\t') is None,
        starts_with(line_text(cs, i, e), "def "@) || starts_with(line_text(cs, i, e), "async def "@),
    ensures
        parse_line(file, cs, i, e, st) == (ParseState {
            diagnostics: st.diagnostics.push(
                error(
                    "RYP0002"@,
                    "use `fn` or `async fn` in .rpy source; Python `def` is not valid Rustype v0 syntax"@,
                    line_span(file, cs, i, e),
                ),
            ),
            ..st
        }),
{
    reveal_strlit("def ");
    reveal_strlit("async def ");
    reveal_strlit("newtype ");
    reveal_strlit("fn ");
    reveal_strlit("async fn ");
    let line = cs.subrange(i, e);
    let text = trim(line);
    lemma_trim(line);
    assert(text.len() > 0 && line.len() > 0);
    assert(space_end(line, 0) == 0);
    let te = i + text.len();
    assert(cs.subrange(i, te) =~= text);
    if starts_with(text, "def "@) {
        assert(text[0] == "def "@[0]);
    } else {
        assert(text[0] == "async def "@[0]);
        assert(text[6] == "async def "@[6]);
    }
    assert(!starts_with(text, "newtype "@)) by {
        assert(text[0] != "newtype "@[0]);
    }
    assert(!starts_with(text, "fn "@)) by {
        assert(text[0] != "fn "@[0]);
    }
    assert(!starts_with(text, "async fn "@)) by {
        if text.len() >= 9 && text.subrange(0, 9) == "async fn "@ {
            assert(text[6] == text.subrange(0, 9)[6]);
        }
    }
    assert(Seq::<DiagnosticView>::empty() + Seq::<DiagnosticView>::empty() =~= Seq::<DiagnosticView>::empty());
    assert(st.diagnostics + Seq::<DiagnosticView>::empty() + Seq::<DiagnosticView>::empty() =~= st.diagnostics);
}

/// A parameter list either parses, reporting nothing, or stops at the
/// first parameter that fails, reporting exactly one diagnostic.
proof fn lemma_params_report_once(
    file: FileId,
    cs: Seq<char>,
    ls: int,
    le: int,
    ranges: Seq<(int, int)>,
    next: nat,
)
    ensures
        ({
            let p = parse_params(file, cs, ls, le, ranges, next);
            &&& p.value is Some ==> p.diagnostics.len() == 0
            &&& p.value is None ==> p.diagnostics.len() == 1
            &&& forall|k: int|
                0 <= k < p.diagnostics.len() ==> (#[trigger] p.diagnostics[k]).span == span_at(
                    file,
                    cs,
                    ls,
                    le,
                )
        }),
    decreases ranges.len(),
{
    if ranges.len() > 0 {
        let first = parse_param(file, cs, ls, le, ranges[0].0, ranges[0].1, next);
        if first.value is Some {
            lemma_params_report_once(file, cs, ls, le, ranges.drop_first(), first.next);
        }
    }
}

/// `newtype `, `fn ` and `async fn ` begin differently.
proof fn lemma_prefixes_differ(t: Seq<char>)
    ensures
        starts_with(t, "newtype "@) ==> !starts_with(t, "fn "@) && !starts_with(t, "async fn "@),
        starts_with(t, "fn "@) ==> !starts_with(t, "async fn "@),
        starts_with(t, "newtype "@) || starts_with(t, "fn "@) || starts_with(t, "async fn "@)
            ==> !starts_with(t, "def "@) && !starts_with(t, "async def "@),
{
    reveal_strlit("newtype ");
    reveal_strlit("fn ");
    reveal_strlit("async fn ");
    reveal_strlit("def ");
    reveal_strlit("async def ");
    if starts_with(t, "newtype "@) {
        assert(t[0] == "newtype "@[0]);
    }
    if starts_with(t, "fn "@) {
        assert(t[0] == "fn "@[0]);
    }
    if starts_with(t, "async fn "@) {
        assert(t[0] == "async fn "@[0]);
        assert(t[6] == "async fn "@[6]);
    }
}

/// A `newtype` line yields a declaration and no diagnostic, or exactly one
/// diagnostic; any other line yields nothing.
proof fn lemma_newtype_reports_once(file: FileId, cs: Seq<char>, ls: int, le: int, next: nat)
    ensures
        ({
            let p = parse_newtype(file, cs, ls, le, next);
            &&& !starts_with(cs.subrange(ls, le), "newtype "@) ==> p.value is None
                && p.diagnostics.len() == 0
            &&& p.value is Some ==> p.diagnostics.len() == 0
            &&& starts_with(cs.subrange(ls, le), "newtype "@) && p.value is None
                ==> p.diagnostics.len() == 1
            &&& forall|k: int|
                0 <= k < p.diagnostics.len() ==> (#[trigger] p.diagnostics[k]).span == span_at(
                    file,
                    cs,
                    ls,
                    le,
                )
            &&& p.value matches Some(d) ==> d.span == span_at(file, cs, ls, le)
        }),
{
}

/// A function header yields a declaration and no diagnostic, or exactly
/// one diagnostic; a line not starting with `fn ` or `async fn ` yields nothing.
proof fn lemma_function_reports_once(file: FileId, cs: Seq<char>, ls: int, le: int, next: nat)
    ensures
        ({
            let line = cs.subrange(ls, le);
            let p = parse_function_header(file, cs, ls, le, next);
            &&& !starts_with(line, "fn "@) && !starts_with(line, "async fn "@) ==> p.value is None
                && p.diagnostics.len() == 0
            &&& p.value is Some ==> p.diagnostics.len() == 0
            &&& (starts_with(line, "fn "@) || starts_with(line, "async fn "@)) && p.value is None
                ==> p.diagnostics.len() == 1
            &&& forall|k: int|
                0 <= k < p.diagnostics.len() ==> (#[trigger] p.diagnostics[k]).span == span_at(
                    file,
                    cs,
                    ls,
                    le,
                )
            &&& p.value matches Some(f) ==> f.span == span_at(file, cs, ls, le)
        }),
{
    let line = cs.subrange(ls, le);
    let is_async = starts_with(line, "async fn "@);
    if is_async || starts_with(line, "fn "@) {
        let rs = ls + if is_async {
            "async fn "@.len() as int
        } else {
            "fn "@.len() as int
        };
        if let Some(r) = crate::strings::find(cs.subrange(rs, le), "->"@) {
            let signature = cs.subrange(rs, rs + r);
            if let (Some(open), Some(close)) = (
                index_of(signature, '('),
                crate::strings::last_index_of(signature, ')'),
            ) {
                lemma_params_report_once(
                    file,
                    cs,
                    ls,
                    le,
                    param_ranges(cs, rs + open + 1, rs + close),
                    next,
                );
            }
        }
    }
}

/// A function header that parses uses `3 + 3·params` node identifiers,
/// handed out in increasing order from `next` (each parameter's, then the
/// function's), reports nothing, and is well formed: its name and its
/// parameters' names are identifiers, annotations and the return type are
/// not empty and already trimmed, and every span lies inside the source.
/// One that fails reports exactly one diagnostic, unless the line does not
/// start with `fn ` or `async fn `, in which case it reports nothing and
/// uses no identifier.
pub proof fn parse_function_header_law(file: FileId, cs: Seq<char>, ls: int, le: int, next: nat)
    requires
        0 <= ls <= le <= cs.len(),
        next + (le - ls) <= u32::MAX,
        utf8_len(cs) <= usize::MAX,
    ensures
        ({
            let line = cs.subrange(ls, le);
            let p = parse_function_header(file, cs, ls, le, next);
            &&& p.value matches Some(f) ==> {
                &&& p.next == next + 3 * f.params.len() + 3
                &&& numbered(item_ids(ItemView::Function(f)), next as int, p.next as int)
                &&& item_well_formed(ItemView::Function(f), file, utf8_len(cs) as int)
                &&& f.is_async == starts_with(line, "async fn "@)
                &&& p.diagnostics.len() == 0
            }
            &&& p.value is None && (starts_with(line, "fn "@) || starts_with(line, "async fn "@))
                ==> p.diagnostics.len() == 1
            &&& !starts_with(line, "fn "@) && !starts_with(line, "async fn "@) ==> p.value is None
                && p.diagnostics.len() == 0 && p.next == next
        }),
{
    lemma_function_ids(file, cs, ls, le, next);
    lemma_function_ok(file, cs, ls, le, next);
    lemma_function_reports_once(file, cs, ls, le, next);
}

/// `s` lies in the line `cs[i..e]`: between the byte offsets of `i` and `e`.
pub open spec fn span_in_line(s: Span, cs: Seq<char>, i: int, e: int) -> bool {
    byte_offset(cs, i) <= s.start <= s.end <= byte_offset(cs, e)
}

/// The span of an item.
pub open spec fn item_span(it: ItemView) -> Span {
    match it {
        ItemView::Newtype(d) => d.span,
        ItemView::Function(f) => f.span,
    }
}

proof fn lemma_span_at_in_line(file: FileId, cs: Seq<char>, a: int, b: int, i: int, e: int)
    requires
        0 <= i <= a <= b <= e <= cs.len(),
        utf8_len(cs) <= usize::MAX,
    ensures
        span_in_line(span_at(file, cs, a, b), cs, i, e),
        span_at(file, cs, a, b).start == byte_offset(cs, a),
{
    lemma_byte_offset_mono(cs, i, a);
    lemma_byte_offset_mono(cs, a, b);
    lemma_byte_offset_mono(cs, b, e);
    lemma_byte_offset_mono(cs, e, cs.len() as int);
    assert(cs.take(cs.len() as int) =~= cs);
}

/// Each line adds at most one item and at most one diagnostic, after the
/// ones before it; a line that is not blank, not a comment and not
/// indented adds exactly one of the two; and what a line adds lies in that
/// line.
pub proof fn parse_line_yields_one_result(file: FileId, cs: Seq<char>, i: int, e: int, st: ParseState)
    requires
        0 <= i <= e <= cs.len(),
        utf8_len(cs) <= usize::MAX,
    ensures
        ({
            let r = parse_line(file, cs, i, e, st);
            let text = line_text(cs, i, e);
            &&& r.items == st.items || exists|it: ItemView| r.items == st.items.push(it)
            &&& r.diagnostics == st.diagnostics || exists|d: DiagnosticView|
                r.diagnostics == st.diagnostics.push(d)
            &&& text.len() > 0 && text[0] != '#' && !indented(cs.subrange(i, e)) ==> r.items.len()
                + r.diagnostics.len() == st.items.len() + st.diagnostics.len() + 1
            &&& r.items.len() > st.items.len() ==> span_in_line(item_span(r.items.last()), cs, i, e)
            &&& r.diagnostics.len() > st.diagnostics.len() ==> span_in_line(
                r.diagnostics.last().span,
                cs,
                i,
                e,
            )
            &&& text.len() > 0 && !indented(cs.subrange(i, e)) ==> {
                &&& r.items.len() > st.items.len() ==> item_span(r.items.last()).start
                    == byte_offset(cs, i)
                &&& r.diagnostics.len() > st.diagnostics.len() ==> r.diagnostics.last().span.start
                    == byte_offset(cs, i)
            }
        }),
{
    let line = cs.subrange(i, e);
    let trimmed = trim(line);
    lemma_trim(line);
    let te = i + trimmed.len();
    let ts = i + space_end(line, 0);
    let span = byte_span(file, byte_offset(cs, ts) as int, byte_offset(cs, e) as int);
    let r = parse_line(file, cs, i, e, st);
    crate::strings::lemma_space_end(line, 0);
    lemma_span_at_in_line(file, cs, ts, e, i, e);
    lemma_span_at_in_line(file, cs, i, te, i, e);
    if trimmed.len() == 0 || trimmed[0] == '#' {
        assert(r == st);
    } else if index_of(line, '\t') is Some {
        assert(r.diagnostics == st.diagnostics.push(
            error("RYP0001"@, "tabs are not allowed in Rustype v0 source"@, span),
        ));
    } else if ts > i {
        assert(r == st);
        assert(is_whitespace(line[0]));
    } else {
        assert(cs.subrange(i, te) =~= trimmed);
        lemma_prefixes_differ(trimmed);
        lemma_newtype_reports_once(file, cs, i, te, st.next);
        let nt = parse_newtype(file, cs, i, te, st.next);
        lemma_function_reports_once(file, cs, i, te, nt.next);
        let fh = parse_function_header(file, cs, i, te, nt.next);
        match nt.value {
            Some(d) => {
                assert(st.diagnostics + nt.diagnostics =~= st.diagnostics);
                assert(r.items == st.items.push(ItemView::Newtype(d)));
            },
            None => {
                let ds = st.diagnostics + nt.diagnostics + fh.diagnostics;
                if nt.diagnostics.len() == 1 {
                    assert(ds =~= st.diagnostics.push(nt.diagnostics[0]));
                    assert(r.diagnostics == ds);
                    assert(r.items == st.items);
                } else {
                    assert(st.diagnostics + nt.diagnostics =~= st.diagnostics);
                    match fh.value {
                        Some(f) => {
                            assert(ds =~= st.diagnostics);
                            assert(r.items == st.items.push(ItemView::Function(f)));
                        },
                        None => {
                            if fh.diagnostics.len() == 1 {
                                assert(ds =~= st.diagnostics.push(fh.diagnostics[0]));
                                assert(r.diagnostics == ds);
                            } else {
                                assert(ds =~= st.diagnostics);
                                assert(r.diagnostics.len() == st.diagnostics.len() + 1);
                                assert(r.diagnostics == st.diagnostics.push(
                                    r.diagnostics[st.diagnostics.len() as int],
                                ));
                            }
                            assert(r.items == st.items);
                        },
                    }
                }
            },
        }
    }
}
/// Items and diagnostics each come in strictly increasing order of their
/// start offsets and end within the first `bound` bytes.
pub open spec fn in_source_order(items: Seq<ItemView>, ds: Seq<DiagnosticView>, bound: int) -> bool {
    &&& forall|a: int, b: int|
        0 <= a < b < items.len() ==> item_span(#[trigger] items[a]).start < item_span(
            #[trigger] items[b],
        ).start
    &&& forall|a: int|
        0 <= a < items.len() ==> item_span(#[trigger] items[a]).start <= item_span(items[a]).end
            <= bound
    &&& forall|a: int, b: int|
        0 <= a < b < ds.len() ==> (#[trigger] ds[a]).span.start < (#[trigger] ds[b]).span.start
    &&& forall|a: int| 0 <= a < ds.len() ==> (#[trigger] ds[a]).span.start <= ds[a].span.end <= bound
}

/// Every item and diagnostic starts before byte `b`.
pub open spec fn starts_before(items: Seq<ItemView>, ds: Seq<DiagnosticView>, b: int) -> bool {
    &&& forall|a: int| 0 <= a < items.len() ==> item_span(#[trigger] items[a]).start < b
    &&& forall|a: int| 0 <= a < ds.len() ==> (#[trigger] ds[a]).span.start < b
}

/// Position `p` starts a line of `cs`.
pub open spec fn line_start(cs: Seq<char>, p: int) -> bool {
    0 <= p < cs.len() && (p == 0 || cs[p - 1] == '\n')
}

/// The line starting at `p`, as the parser reads it (without its line
/// break and trailing comment), is not blank, not a comment and not indented.
pub open spec fn top_level_line(cs: Seq<char>, p: int) -> bool {
    let ce = content_end(cs, p, line_break_end(cs, p));
    &&& line_text(cs, p, ce).len() > 0
    &&& line_text(cs, p, ce)[0] != '#'
    &&& !indented(cs.subrange(p, ce))
}

/// An item or a diagnostic starts at byte `b`.
pub open spec fn has_result_at(items: Seq<ItemView>, ds: Seq<DiagnosticView>, b: int) -> bool {
    ||| exists|k: int| 0 <= k < items.len() && (#[trigger] item_span(items[k])).start == b
    ||| exists|k: int| 0 <= k < ds.len() && (#[trigger] ds[k]).span.start == b
}

/// `index_of_from` finds the first `c`: none lies before it.
proof fn lemma_index_of_first(s: Seq<char>, c: char, k: int)
    requires
        0 <= k,
    ensures
        match index_of_from(s, c, k) {
            Some(j) => forall|q: int| k <= q < j ==> s[q] != c,
            None => forall|q: int| k <= q < s.len() ==> s[q] != c,
        },
    decreases s.len() - k,
{
    if k < s.len() && s[k] != c {
        lemma_index_of_first(s, c, k + 1);
    }
}

proof fn lemma_from_lines(file: FileId, cs: Seq<char>, i: int, st: ParseState)
    requires
        0 <= i <= cs.len(),
        utf8_len(cs) <= usize::MAX,
        i == 0 || i == cs.len() || cs[i - 1] == '\n',
        in_source_order(st.items, st.diagnostics, byte_offset(cs, i) as int),
        i < cs.len() ==> starts_before(st.items, st.diagnostics, byte_offset(cs, i) as int),
        forall|p: int|
            line_start(cs, p) && p < i && top_level_line(cs, p) ==> has_result_at(
                st.items,
                st.diagnostics,
                byte_offset(cs, p) as int,
            ),
    ensures
        in_source_order(
            parse_from(file, cs, i, st).items,
            parse_from(file, cs, i, st).diagnostics,
            byte_offset(cs, cs.len() as int) as int,
        ),
        forall|p: int|
            line_start(cs, p) && top_level_line(cs, p) ==> has_result_at(
                parse_from(file, cs, i, st).items,
                parse_from(file, cs, i, st).diagnostics,
                byte_offset(cs, p) as int,
            ),
    decreases cs.len() - i,
{
    if i < cs.len() {
        let e = line_break_end(cs, i);
        lemma_line_break_end(cs, i);
        lemma_index_of_from(cs, '\n', i);
        lemma_index_of_first(cs, '\n', i);
        let ce = content_end(cs, i, e);
        lemma_content_end(cs, i, e);
        lemma_text_end(cs, i, e);
        lemma_comment_start(cs, i, text_end(cs, i, e), None);
        parse_line_yields_one_result(file, cs, i, ce, st);
        let r = parse_line(file, cs, i, ce, st);
        lemma_byte_offset_mono(cs, i, ce);
        lemma_byte_offset_mono(cs, ce, e);
        let bound = byte_offset(cs, e) as int;
        let bi = byte_offset(cs, i) as int;
        if e < cs.len() {
            assert(cs[e - 1] == '\n');
            assert(text_end(cs, i, e) == text_end(cs, i, e - 1));
            lemma_text_end(cs, i, e - 1);
            lemma_byte_offset_mono(cs, ce, e - 1);
            crate::text::lemma_byte_offset_step(cs, e - 1);
        }
        if r.items.len() > st.items.len() {
            assert(r.items == st.items.push(r.items.last()));
        } else {
            assert(r.items == st.items);
        }
        if r.diagnostics.len() > st.diagnostics.len() {
            assert(r.diagnostics == st.diagnostics.push(r.diagnostics.last()));
        } else {
            assert(r.diagnostics == st.diagnostics);
        }
        let n = st.items.len() as int;
        let m = st.diagnostics.len() as int;
        assert forall|a: int, b: int| 0 <= a < b < r.items.len() implies item_span(
            #[trigger] r.items[a],
        ).start < item_span(#[trigger] r.items[b]).start by {
            assert(r.items[a] == st.items[a]);
            if b < n {
                assert(r.items[b] == st.items[b]);
            }
        }
        assert forall|a: int| 0 <= a < r.items.len() implies item_span(#[trigger] r.items[a]).start
            <= item_span(r.items[a]).end <= bound by {
            if a < n {
                assert(r.items[a] == st.items[a]);
            }
        }
        assert forall|a: int, b: int| 0 <= a < b < r.diagnostics.len() implies (
        #[trigger] r.diagnostics[a]).span.start < (#[trigger] r.diagnostics[b]).span.start by {
            assert(r.diagnostics[a] == st.diagnostics[a]);
            if b < m {
                assert(r.diagnostics[b] == st.diagnostics[b]);
            }
        }
        assert forall|a: int| 0 <= a < r.diagnostics.len() implies (
        #[trigger] r.diagnostics[a]).span.start <= r.diagnostics[a].span.end <= bound by {
            if a < m {
                assert(r.diagnostics[a] == st.diagnostics[a]);
            }
        }
        if e < cs.len() {
            assert forall|a: int| 0 <= a < r.items.len() implies item_span(
                #[trigger] r.items[a],
            ).start < bound by {
                if a < n {
                    assert(r.items[a] == st.items[a]);
                }
            }
            assert forall|a: int| 0 <= a < r.diagnostics.len() implies (
            #[trigger] r.diagnostics[a]).span.start < bound by {
                if a < m {
                    assert(r.diagnostics[a] == st.diagnostics[a]);
                }
            }
        }
        assert forall|p: int| line_start(cs, p) && p < e && top_level_line(cs, p) implies has_result_at(
            r.items,
            r.diagnostics,
            byte_offset(cs, p) as int,
        ) by {
            if p < i {
                let b = byte_offset(cs, p) as int;
                if exists|k: int| 0 <= k < st.items.len() && (#[trigger] item_span(st.items[k])).start
                    == b {
                    let k = choose|k: int|
                        0 <= k < st.items.len() && (#[trigger] item_span(st.items[k])).start == b;
                    assert(r.items[k] == st.items[k]);
                    assert(item_span(r.items[k]).start == b);
                } else {
                    let k = choose|k: int|
                        0 <= k < st.diagnostics.len() && (#[trigger] st.diagnostics[k]).span.start
                            == b;
                    assert(r.diagnostics[k] == st.diagnostics[k]);
                }
            } else if p == i {
                if r.items.len() > st.items.len() {
                    assert(item_span(r.items[r.items.len() - 1]).start == bi);
                } else {
                    assert(r.diagnostics[r.diagnostics.len() - 1].span.start == bi);
                }
            } else {
                assert(cs[p - 1] != '\n');
            }
        }
        lemma_from_lines(file, cs, e, r);
    }
}

/// Items and diagnostics of a parse each come in strictly increasing order
/// of their start offsets and end inside the source; and every line that
/// is not blank, not a comment and not indented yields an item or a
/// diagnostic starting at the line's first byte.
pub proof fn parse_results_in_source_order(file: FileId, cs: Seq<char>)
    requires
        utf8_len(cs) <= MAX_SOURCE_BYTES,
    ensures
        in_source_order(
            parse_source(file, cs).module.items,
            parse_source(file, cs).diagnostics,
            utf8_len(cs) as int,
        ),
        forall|p: int|
            line_start(cs, p) && top_level_line(cs, p) ==> has_result_at(
                parse_source(file, cs).module.items,
                parse_source(file, cs).diagnostics,
                byte_offset(cs, p) as int,
            ),
{
    let init = ParseState { items: Seq::empty(), next: 0, diagnostics: Seq::empty() };
    lemma_from_lines(file, cs, 0, init);
    assert(cs.take(cs.len() as int) =~= cs);
}


/// Names are exactly the identifiers that are not reserved words: a letter
/// or `_`, then letters, digits or `_`, spelling no keyword.
pub proof fn names_are_unreserved_identifiers(s: Seq<char>)
    ensures
        is_name(s) == (crate::lexer_laws::is_identifier_text(s) && keyword(s) is None),
{
}

/// `c` first occurs in `s` from `k` on at `j`.
proof fn lemma_index_at(s: Seq<char>, c: char, k: int, j: int)
    requires
        0 <= k <= j < s.len(),
        s[j] == c,
        forall|q: int| k <= q < j ==> s[q] != c,
    ensures
        index_of_from(s, c, k) == Some(j),
    decreases j - k,
{
    if k < j {
        lemma_index_at(s, c, k + 1, j);
    }
}

/// `->` first occurs in `s` from `k` on at `j`, when no `-` comes before.
proof fn lemma_find_arrow_at(s: Seq<char>, k: int, j: int)
    requires
        0 <= k <= j,
        j + 2 <= s.len(),
        s[j] == '-' && s[j + 1] == '>',
        forall|q: int| k <= q < j ==> s[q] != '-',
    ensures
        find_from(s, "->"@, k) == Some(j),
    decreases j - k,
{
    reveal_strlit("->");
    assert(s.subrange(j, j + 2) =~= "->"@);
    if k < j {
        assert(s.subrange(k, k + 2)[0] != "->"@[0]);
        lemma_find_arrow_at(s, k + 1, j);
    }
}

/// A declaration `newtype A=T` whose `A` holds no `=` and trims to an
/// identifier that is not a reserved word, and whose `T` is not blank,
/// declares the newtype `trim(A)` for the type `trim(T)`, using three node
/// identifiers and reporting nothing.
pub proof fn parse_newtype_declares(
    file: FileId,
    cs: Seq<char>,
    ls: int,
    le: int,
    next: nat,
    a: Seq<char>,
    t: Seq<char>,
)
    requires
        0 <= ls <= le <= cs.len(),
        cs.subrange(ls, le) == "newtype "@ + a + "="@ + t,
        forall|q: int| 0 <= q < a.len() ==> a[q] != '=',
        crate::lexer_laws::is_identifier_text(trim(a)),
        keyword(trim(a)) is None,
        trim(t).len() > 0,
    ensures
        parse_newtype(file, cs, ls, le, next).value matches Some(d) && d.name.name == trim(a)
            && d.underlying.text == trim(t),
        parse_newtype(file, cs, ls, le, next).next == next + 3,
        parse_newtype(file, cs, ls, le, next).diagnostics.len() == 0,
{
    reveal_strlit("newtype ");
    reveal_strlit("=");
    let p = "newtype "@;
    let line = cs.subrange(ls, le);
    assert(line.subrange(0, p.len() as int) =~= p);
    let rs = ls + p.len();
    let rest = cs.subrange(rs, le);
    let tail = a + "="@ + t;
    assert(line =~= p + tail);
    assert(rest =~= line.subrange(p.len() as int, line.len() as int));
    assert(line.subrange(p.len() as int, line.len() as int) =~= tail);
    assert(rest =~= tail);
    assert(rest[a.len() as int] == '=');
    lemma_index_at(rest, '=', 0, a.len() as int);
    let r = a.len() as int;
    assert(cs.subrange(rs, rs + r) =~= rest.subrange(0, r));
    assert(rest.subrange(0, r) =~= a);
    assert(cs.subrange(rs + r + 1, le) =~= rest.subrange(r + 1, rest.len() as int));
    assert(rest.subrange(r + 1, rest.len() as int) =~= t);
    lemma_trimmed_range(cs, rs, rs + r);
    lemma_trimmed_range(cs, rs + r + 1, le);
}

/// The header on `cs[ls..le]` whose pieces were located: the keyword ends
/// at `rs`; from there, `open` and `close` are the parentheses of the
/// signature and `arrow` the `->`; `:` closes the line; the parameters
/// between the parentheses parse.
proof fn lemma_header_result(
    file: FileId,
    cs: Seq<char>,
    ls: int,
    le: int,
    next: nat,
    is_async: bool,
    rs: int,
    open: int,
    close: int,
    arrow: int,
)
    requires
        0 <= ls <= rs,
        0 <= open < close < arrow,
        rs + arrow + 2 < le <= cs.len(),
        starts_with(cs.subrange(ls, le), "async fn "@) == is_async,
        is_async || starts_with(cs.subrange(ls, le), "fn "@),
        rs == ls + if is_async {
            "async fn "@.len() as int
        } else {
            "fn "@.len() as int
        },
        crate::strings::find(cs.subrange(rs, le), "->"@) == Some(arrow),
        cs[le - 1] == ':',
        trimmed_range(cs, rs + arrow + 2, le - 1).0 != trimmed_range(cs, rs + arrow + 2, le - 1).1,
        index_of(cs.subrange(rs, rs + arrow), '(') == Some(open),
        last_index_of(cs.subrange(rs, rs + arrow), ')') == Some(close),
        is_name(cs.subrange(trimmed_range(cs, rs, rs + open).0, trimmed_range(cs, rs, rs + open).1)),
        parse_params(file, cs, ls, le, param_ranges(cs, rs + open + 1, rs + close), next).value is Some,
    ensures
        ({
            let ps = parse_params(file, cs, ls, le, param_ranges(cs, rs + open + 1, rs + close), next);
            let h = parse_function_header(file, cs, ls, le, next);
            &&& h.value matches Some(f) && f.name.name == cs.subrange(
                trimmed_range(cs, rs, rs + open).0,
                trimmed_range(cs, rs, rs + open).1,
            ) && Some(f.params) == ps.value && f.return_type.text == cs.subrange(
                trimmed_range(cs, rs + arrow + 2, le - 1).0,
                trimmed_range(cs, rs + arrow + 2, le - 1).1,
            ) && f.is_async == is_async
            &&& h.next == ps.next + 3
            &&& h.diagnostics == ps.diagnostics
        }),
{
    reveal_strlit("->");
}

/// A header `fn N() ->R:` (or `async fn N() ->R:`; `R` may begin with
/// white space, as in `fn N() -> R:`) whose `N` holds no `(` and no `-` and
/// trims to an identifier that is not a reserved word, and whose `R` is not
/// blank, declares the function `trim(N)` without parameters returning
/// `trim(R)`, using three node identifiers and reporting nothing.
pub proof fn parse_function_header_declares(
    file: FileId,
    cs: Seq<char>,
    ls: int,
    le: int,
    next: nat,
    is_async: bool,
    n: Seq<char>,
    r: Seq<char>,
)
    requires
        0 <= ls <= le <= cs.len(),
        cs.subrange(ls, le) == (if is_async {
            "async fn "@
        } else {
            "fn "@
        }) + n + "() ->"@ + r + ":"@,
        forall|q: int| 0 <= q < n.len() ==> n[q] != '(' && n[q] != '-',
        crate::lexer_laws::is_identifier_text(trim(n)),
        keyword(trim(n)) is None,
        trim(r).len() > 0,
    ensures
        parse_function_header(file, cs, ls, le, next).value matches Some(f) && f.name.name == trim(
            n,
        ) && f.params.len() == 0 && f.return_type.text == trim(r) && f.is_async == is_async,
        parse_function_header(file, cs, ls, le, next).next == next + 3,
        parse_function_header(file, cs, ls, le, next).diagnostics.len() == 0,
{
    reveal_strlit("async fn ");
    reveal_strlit("fn ");
    reveal_strlit("() ->");
    reveal_strlit(":");
    let p = if is_async {
        "async fn "@
    } else {
        "fn "@
    };
    let line = cs.subrange(ls, le);
    let mid = "() ->"@;
    let nl = n.len() as int;
    let tail = n + mid + r + ":"@;
    let rs = ls + p.len();
    let rest = cs.subrange(rs, le);
    assert(starts_with(line, "async fn "@) == is_async && (is_async || starts_with(line, "fn "@)))
        by {
        assert(line =~= p + tail);
        if is_async {
            assert(line.subrange(0, 9) =~= "async fn "@);
        } else {
            assert(line.subrange(0, 3) =~= "fn "@);
            assert(line[0] != "async fn "@[0]);
        }
    }
    assert(rest =~= tail) by {
        assert(line =~= p + tail);
        assert(rest =~= line.subrange(p.len() as int, line.len() as int));
        assert(line.subrange(p.len() as int, line.len() as int) =~= tail);
    }
    assert(rest[nl] == '(' && rest[nl + 1] == ')' && rest[nl + 2] == ' ' && rest[nl + 3] == '-'
        && rest[nl + 4] == '>') by {
        assert(mid.len() == 5 && mid[0] == '(' && mid[1] == ')' && mid[2] == ' ' && mid[3] == '-'
            && mid[4] == '>');
        assert(rest[nl] == mid[0] && rest[nl + 1] == mid[1] && rest[nl + 2] == mid[2]);
        assert(rest[nl + 3] == mid[3] && rest[nl + 4] == mid[4]);
    }
    assert(crate::strings::find(rest, "->"@) == Some(nl + 3)) by {
        assert forall|q: int| 0 <= q < nl + 3 implies rest[q] != '-' by {
            if q < nl {
                assert(rest[q] == n[q]);
            }
        }
        lemma_find_arrow_at(rest, 0, nl + 3);
    }
    let rc = rs + nl + 5;
    assert(cs[le - 1] == ':') by {
        assert(rest[rest.len() - 1] == ':');
    }
    assert(cs.subrange(rc, le - 1) =~= r) by {
        assert(cs.subrange(rc, le - 1) =~= rest.subrange(nl + 5, rest.len() - 1));
        assert(rest.subrange(nl + 5, rest.len() - 1) =~= r);
    }
    lemma_trimmed_range(cs, rc, le - 1);
    let signature = cs.subrange(rs, rs + nl + 3);
    assert(index_of(signature, '(') == Some(nl) && last_index_of(signature, ')') == Some(nl + 1))
        by {
        assert(signature =~= rest.subrange(0, nl + 3));
        assert forall|q: int| 0 <= q < nl implies signature[q] != '(' by {
            assert(signature[q] == n[q]);
        }
        lemma_index_at(signature, '(', 0, nl);
        assert(signature[nl + 2] == rest[nl + 2] && signature[nl + 1] == rest[nl + 1]);
        assert(crate::strings::last_index_of_to(signature, ')', nl + 1) == Some(nl + 1));
        assert(crate::strings::last_index_of_to(signature, ')', nl + 2) == Some(nl + 1));
    }
    assert(cs.subrange(rs, rs + nl) =~= n) by {
        assert(cs.subrange(rs, rs + nl) =~= rest.subrange(0, nl));
    }
    lemma_trimmed_range(cs, rs, rs + nl);
    assert(param_ranges(cs, rs + nl + 1, rs + nl + 1) =~= Seq::<(int, int)>::empty());
    lemma_header_result(file, cs, ls, le, next, is_async, rs, nl, nl + 1, nl + 3);
}


/// No comma lies in `cs[i..b]`: there is no comma to split at.
proof fn lemma_no_top_comma(cs: Seq<char>, i: int, b: int, depth: nat)
    requires
        forall|q: int| i <= q < b ==> #[trigger] cs[q] != ',',
    ensures
        top_comma(cs, i, b, depth) is None,
    decreases b - i,
{
    if !(i < 0 || i >= b || b > cs.len()) {
        lemma_no_top_comma(cs, i + 1, b, depth_after(cs[i], depth));
    }
}

/// The parameter list `cs[a..b]` is one parameter `P:T`, with no comma,
/// `P` holding no `:` and not beginning, `T` not ending with white space:
/// it parses to that one parameter, named `trim(P)` and annotated `trim(T)`.
proof fn lemma_one_param(
    file: FileId,
    cs: Seq<char>,
    ls: int,
    le: int,
    next: nat,
    a: int,
    b: int,
    pp: Seq<char>,
    t: Seq<char>,
)
    requires
        0 <= a <= b <= cs.len(),
        cs.subrange(a, b) == pp + ":"@ + t,
        forall|q: int| 0 <= q < pp.len() ==> pp[q] != ':' && pp[q] != ',',
        forall|q: int| 0 <= q < t.len() ==> t[q] != ',',
        is_name(trim(pp)),
        pp.len() > 0 && !is_whitespace(pp[0]),
        t.len() > 0 && !is_whitespace(t.last()),
        trim(t).len() > 0,
    ensures
        ({
            let ps = parse_params(file, cs, ls, le, param_ranges(cs, a, b), next);
            &&& ps.value matches Some(v) && v.len() == 1 && v[0].name.name == trim(pp)
                && v[0].annotation.text == trim(t)
            &&& ps.next == next + 3
            &&& ps.diagnostics.len() == 0
        }),
{
    reveal_strlit(":");
    let pl = pp.len() as int;
    let region = cs.subrange(a, b);
    assert(forall|q: int| a <= q < b ==> #[trigger] cs[q] != ',') by {
        assert forall|q: int| a <= q < b implies #[trigger] cs[q] != ',' by {
            assert(cs[q] == region[q - a]);
            if q - a < pl {
                assert(region[q - a] == pp[q - a]);
            } else if q - a > pl {
                assert(region[q - a] == t[q - a - pl - 1]);
            }
        }
    }
    lemma_no_top_comma(cs, a, b, 0);
    assert(region[0] == pp[0] && region.last() == t.last());
    assert(is_trimmed(region));
    lemma_trimmed_is_own_trim(region);
    assert(space_end(region, 0) == 0);
    assert(trimmed_range(cs, a, b) == (a, b));
    assert(param_ranges(cs, a, b) == seq![(a, b)]);
    // the parameter
    assert(index_of(region, ':') == Some(pl)) by {
        assert forall|q: int| 0 <= q < pl implies region[q] != ':' by {
            assert(region[q] == pp[q]);
        }
        assert(region[pl] == ":"@[0]);
        lemma_index_at(region, ':', 0, pl);
    }
    assert(cs.subrange(a, a + pl) =~= pp) by {
        assert(cs.subrange(a, a + pl) =~= region.subrange(0, pl));
    }
    assert(cs.subrange(a + pl + 1, b) =~= t) by {
        assert(cs.subrange(a + pl + 1, b) =~= region.subrange(pl + 1, region.len() as int));
    }
    lemma_trimmed_range(cs, a, a + pl);
    lemma_trimmed_range(cs, a + pl + 1, b);
    let first = parse_param(file, cs, ls, le, a, b, next);
    assert(first.value matches Some(q) && q.name.name == trim(pp) && q.annotation.text == trim(t));
    assert(first.next == next + 3);
    let ranges = seq![(a, b)];
    assert(ranges.drop_first() =~= Seq::<(int, int)>::empty());
    let ps = parse_params(file, cs, ls, le, ranges, next);
    assert(parse_params(file, cs, ls, le, ranges.drop_first(), next + 3).value == Some(
        Seq::<ParamView>::empty(),
    ));
    assert(ps.next == next + 3 && ps.diagnostics.len() == 0);
    assert(ps.value matches Some(v) && v.len() == 1 && v[0] == first.value.unwrap()) by {
        let v = seq![first.value.unwrap()] + Seq::<ParamView>::empty();
        assert(v.len() == 1);
    }
}

/// A header `fn N(P:T) ->R:` (or `async fn ...`; `R` may begin with white
/// space) with one parameter declares the function `trim(N)` whose one
/// parameter is named `trim(P)` and annotated `trim(T)`, returning
/// `trim(R)`, using six node identifiers and reporting nothing. `N` holds no
/// `(`; `N`, `P` and `T` hold no `-` and, but for `N`, no `,`; `P` holds no
/// `:`; `trim(N)` and `trim(P)` are identifiers that are not reserved words;
/// `P` does not begin and `T` does not end with white space.
#[verifier::rlimit(100)]
pub proof fn parse_function_header_declares_param(
    file: FileId,
    cs: Seq<char>,
    ls: int,
    le: int,
    next: nat,
    is_async: bool,
    n: Seq<char>,
    pp: Seq<char>,
    t: Seq<char>,
    r: Seq<char>,
)
    requires
        0 <= ls <= le <= cs.len(),
        cs.subrange(ls, le) == (if is_async {
            "async fn "@
        } else {
            "fn "@
        }) + n + "("@ + pp + ":"@ + t + ") ->"@ + r + ":"@,
        forall|q: int| 0 <= q < n.len() ==> n[q] != '(' && n[q] != '-',
        forall|q: int| 0 <= q < pp.len() ==> pp[q] != ':' && pp[q] != ',' && pp[q] != '-',
        forall|q: int| 0 <= q < t.len() ==> t[q] != ',' && t[q] != '-',
        crate::lexer_laws::is_identifier_text(trim(n)),
        keyword(trim(n)) is None,
        crate::lexer_laws::is_identifier_text(trim(pp)),
        keyword(trim(pp)) is None,
        pp.len() > 0 && !is_whitespace(pp[0]),
        t.len() > 0 && !is_whitespace(t.last()),
        trim(t).len() > 0,
        trim(r).len() > 0,
    ensures
        parse_function_header(file, cs, ls, le, next).value matches Some(f) && f.name.name == trim(
            n,
        ) && f.params.len() == 1 && f.params[0].name.name == trim(pp)
            && f.params[0].annotation.text == trim(t) && f.return_type.text == trim(r)
            && f.is_async == is_async,
        parse_function_header(file, cs, ls, le, next).next == next + 6,
        parse_function_header(file, cs, ls, le, next).diagnostics.len() == 0,
{
    reveal_strlit("async fn ");
    reveal_strlit("fn ");
    reveal_strlit("(");
    reveal_strlit(":");
    reveal_strlit(") ->");
    let p = if is_async {
        "async fn "@
    } else {
        "fn "@
    };
    let line = cs.subrange(ls, le);
    let nl = n.len() as int;
    let pl = pp.len() as int;
    let tl = t.len() as int;
    let c0 = nl + 2 + pl + tl;
    let tail = n + "("@ + pp + ":"@ + t + ") ->"@ + r + ":"@;
    let rs = ls + p.len();
    let rest = cs.subrange(rs, le);
    assert(starts_with(line, "async fn "@) == is_async && (is_async || starts_with(line, "fn "@)))
        by {
        assert(line =~= p + tail);
        if is_async {
            assert(line.subrange(0, 9) =~= "async fn "@);
        } else {
            assert(line.subrange(0, 3) =~= "fn "@);
            assert(line[0] != "async fn "@[0]);
        }
    }
    assert(rest =~= tail) by {
        assert(line =~= p + tail);
        assert(rest =~= line.subrange(p.len() as int, line.len() as int));
        assert(line.subrange(p.len() as int, line.len() as int) =~= tail);
    }
    assert(rest.len() == c0 + 4 + r.len() + 1);
    assert(rest[nl] == '(' && rest[nl + 1 + pl] == ':' && rest[c0] == ')' && rest[c0 + 1] == ' '
        && rest[c0 + 2] == '-' && rest[c0 + 3] == '>') by {
        assert(rest[nl] == "("@[0]);
        assert(rest[nl + 1 + pl] == ":"@[0]);
        assert(rest[c0] == ") ->"@[0] && rest[c0 + 1] == ") ->"@[1]);
        assert(rest[c0 + 2] == ") ->"@[2] && rest[c0 + 3] == ") ->"@[3]);
    }
    assert(crate::strings::find(rest, "->"@) == Some(c0 + 2)) by {
        assert forall|q: int| 0 <= q < c0 + 2 implies rest[q] != '-' by {
            if q < nl {
                assert(rest[q] == n[q]);
            } else if nl < q < nl + 1 + pl {
                assert(rest[q] == pp[q - nl - 1]);
            } else if nl + 1 + pl < q < c0 {
                assert(rest[q] == t[q - nl - 2 - pl]);
            }
        }
        lemma_find_arrow_at(rest, 0, c0 + 2);
    }
    let rc = rs + c0 + 4;
    assert(cs[le - 1] == ':') by {
        assert(rest[rest.len() - 1] == ":"@[0]);
    }
    assert(cs.subrange(rc, le - 1) =~= r) by {
        assert(cs.subrange(rc, le - 1) =~= rest.subrange(c0 + 4, rest.len() - 1));
        assert(rest.subrange(c0 + 4, rest.len() - 1) =~= r);
    }
    lemma_trimmed_range(cs, rc, le - 1);
    let signature = cs.subrange(rs, rs + c0 + 2);
    assert(index_of(signature, '(') == Some(nl) && last_index_of(signature, ')') == Some(c0)) by {
        assert(signature =~= rest.subrange(0, c0 + 2));
        assert forall|q: int| 0 <= q < nl implies signature[q] != '(' by {
            assert(signature[q] == n[q]);
        }
        lemma_index_at(signature, '(', 0, nl);
        assert(signature[c0 + 1] == rest[c0 + 1] && signature[c0] == rest[c0]);
        assert(crate::strings::last_index_of_to(signature, ')', c0) == Some(c0));
        assert(crate::strings::last_index_of_to(signature, ')', c0 + 1) == Some(c0));
    }
    assert(cs.subrange(rs, rs + nl) =~= n) by {
        assert(cs.subrange(rs, rs + nl) =~= rest.subrange(0, nl));
    }
    lemma_trimmed_range(cs, rs, rs + nl);
    let a = rs + nl + 1;
    let b = rs + c0;
    assert(cs.subrange(a, b) =~= pp + ":"@ + t) by {
        assert(cs.subrange(a, b) =~= rest.subrange(nl + 1, c0));
    }
    lemma_one_param(file, cs, ls, le, next, a, b, pp, t);
    lemma_header_result(file, cs, ls, le, next, is_async, rs, nl, c0, c0 + 2);
}

} // verus!
