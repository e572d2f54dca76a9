//! Tokenizer and validator for iCalendar text.

use vstd::prelude::*;

verus! {

/// Why a source document was rejected.
#[derive(Clone, Copy, Debug, PartialEq, Eq, Structural)]
pub enum ParseError {
    /// The text is not one calendar object: its first or last non-blank line
    /// is not the calendar's opening or closing marker.
    InvalidDocument,
    /// A component is unterminated, closed by the wrong name, or a line has
    /// no `:` between its name and value.
    MalformedDocument,
}

impl ParseError {
    /// A human-readable description of the error.
    pub fn message(&self) -> (r: String)
        ensures
            r@ == self.message_spec(),
    {
        match self {
            ParseError::InvalidDocument => String::from_str("no valid calendar object was present"),
            ParseError::MalformedDocument => String::from_str("a calendar component is malformed"),
        }
    }

    pub open spec fn message_spec(&self) -> Seq<char> {
        match self {
            ParseError::InvalidDocument => "no valid calendar object was present"@,
            ParseError::MalformedDocument => "a calendar component is malformed"@,
        }
    }
}

/// One top-level block of a calendar: its name and its lines, from its
/// `BEGIN` line to its `END` line, nested components included verbatim.
#[derive(Clone, Debug)]
pub struct Component {
    pub name: String,
    pub lines: Vec<String>,
}

pub ghost struct ComponentModel {
    pub name: Seq<char>,
    pub lines: Seq<Seq<char>>,
}

pub open spec fn text_lines(v: Seq<String>) -> Seq<Seq<char>> {
    v.map_values(|l: String| l@)
}

impl View for Component {
    type V = ComponentModel;

    open spec fn view(&self) -> ComponentModel {
        ComponentModel { name: self.name@, lines: text_lines(self.lines@) }
    }
}

pub open spec fn component_models(v: Seq<Component>) -> Seq<ComponentModel> {
    v.map_values(|c: Component| c@)
}

// ---------------------------------------------------------------------------
// Physical and logical lines

/// The pieces of `s` between its `'\n'` characters (one more than there are
/// newlines).
pub open spec fn split_newlines(s: Seq<char>) -> Seq<Seq<char>>
    decreases s.len(),
{
    if s.len() == 0 {
        seq![Seq::empty()]
    } else {
        let prev = split_newlines(s.drop_last());
        if s.last() == '\n' {
            prev.push(Seq::empty())
        } else {
            prev.update(prev.len() - 1, prev.last().push(s.last()))
        }
    }
}

pub open spec fn strip_cr(l: Seq<char>) -> Seq<char> {
    if l.len() > 0 && l.last() == '\r' {
        l.drop_last()
    } else {
        l
    }
}

/// The physical lines of a text: split at `"\n"`, with one `'\r'` dropped
/// before each `"\n"`; a final line ending yields no extra empty line.
pub open spec fn lines_of(text: Seq<char>) -> Seq<Seq<char>> {
    let p = split_newlines(text);
    let body = p.take(p.len() - 1).map_values(|l: Seq<char>| strip_cr(l));
    if p.last().len() == 0 {
        body
    } else {
        body.push(p.last())
    }
}

/// Relies on str::lines: splits at "\n", drops one '\r' before each "\n",
/// and yields no empty line for a final line ending.
#[verifier::external_body]
fn physical_lines(text: &str) -> (r: Vec<String>)
    ensures
        text_lines(r@) == lines_of(text@),
{
    text.lines().map(String::from).collect()
}

/// A line folded onto the one before it starts with a space or a tab.
pub open spec fn is_continuation(l: Seq<char>) -> bool {
    l.len() > 0 && (l[0] == ' ' || l[0] == '\t')
}

/// The logical lines: each continuation line joined, without its first
/// character, to the line before it; empty lines left out.
pub open spec fn logical_lines(ls: Seq<Seq<char>>) -> Seq<Seq<char>>
    decreases ls.len(),
{
    if ls.len() == 0 {
        Seq::empty()
    } else {
        let prev = logical_lines(ls.drop_last());
        let l = ls.last();
        if l.len() == 0 {
            prev
        } else if is_continuation(l) && prev.len() > 0 {
            prev.update(prev.len() - 1, prev.last() + l.skip(1))
        } else {
            prev.push(l)
        }
    }
}

/// Joins folded lines and drops empty ones.
pub fn unfold_lines(lines: &Vec<String>) -> (r: Vec<String>)
    ensures
        text_lines(r@) == logical_lines(text_lines(lines@)),
{
    let ghost ls = text_lines(lines@);
    let mut out: Vec<String> = Vec::new();
    for i in 0..lines.len()
        invariant
            ls == text_lines(lines@),
            text_lines(out@) == logical_lines(ls.take(i as int)),
    {
        let line = lines[i].as_str();
        let n = line.unicode_len();
        proof {
            assert(ls.take(i + 1).drop_last() =~= ls.take(i as int));
            assert(ls[i as int] == line@);
        }
        if n == 0 {
        } else {
            let c = line.get_char(0);
            if (c == ' ' || c == '\t') && out.len() > 0 {
                let mut last = out.pop().unwrap();
                let rest = line.substring_char(1, n);
                last.append(rest);
                out.push(last);
                proof {
                    let prev = logical_lines(ls.take(i as int));
                    assert(text_lines(out@) =~= prev.update(prev.len() - 1, prev.last() + line@.skip(1)));
                }
            } else {
                out.push(lines[i].clone());
                assert(text_lines(out@) =~= logical_lines(ls.take(i as int)).push(line@));
            }
        }
    }
    assert(ls.take(lines.len() as int) =~= ls);
    out
}

// ---------------------------------------------------------------------------
// Properties

/// The length of a line's property name: the characters before its first `:`.
pub open spec fn name_len(l: Seq<char>) -> nat
    decreases l.len(),
{
    if l.len() == 0 || l[0] == ':' {
        0
    } else {
        1 + name_len(l.skip(1))
    }
}

pub open spec fn has_colon(l: Seq<char>) -> bool {
    name_len(l) < l.len()
}

pub open spec fn prop_name(l: Seq<char>) -> Seq<char> {
    l.take(name_len(l) as int)
}

pub open spec fn prop_value(l: Seq<char>) -> Seq<char> {
    l.skip(name_len(l) + 1int)
}

proof fn lemma_name_len_bound(l: Seq<char>)
    ensures
        name_len(l) <= l.len(),
    decreases l.len(),
{
    if l.len() > 0 && l[0] != ':' {
        lemma_name_len_bound(l.skip(1));
    }
}

/// The position of the first `:` in `s`, if there is one.
pub fn first_colon(s: &str) -> (r: Option<usize>)
    ensures
        r == (if has_colon(s@) { Some(name_len(s@) as usize) } else { None::<usize> }),
{
    let n = s.unicode_len();
    let mut i: usize = 0;
    proof {
        lemma_name_len_bound(s@);
        assert(s@.skip(0) =~= s@);
    }
    for c in it: s.chars()
        invariant
            i == it.index(),
            it.seq() == s@,
            i <= s@.len(),
            n == s@.len(),
            name_len(s@) == i + name_len(s@.skip(i as int)),
            name_len(s@) <= s@.len(),
    {
        assert(s@[i as int] == c);
        assert(s@.skip(i as int)[0] == c);
        if c == ':' {
            return Some(i);
        }
        assert(s@.skip(i as int).skip(1) =~= s@.skip(i + 1));
        i = i + 1;
    }
    assert(s@.skip(i as int).len() == 0);
    None
}

/// The value of a property line `NAME:VALUE`: everything after the first `:`.
pub fn parse_property(property: &str) -> (r: Result<&str, ParseError>)
    ensures
        has_colon(property@) ==> (r matches Ok(v) && v@ == prop_value(property@)),
        !has_colon(property@) ==> r == Err::<&str, ParseError>(ParseError::MalformedDocument),
{
    match first_colon(property) {
        Some(i) => {
            let n = property.unicode_len();
            Ok(property.substring_char(i + 1, n))
        },
        None => Err(ParseError::MalformedDocument),
    }
}

// ---------------------------------------------------------------------------
// Components

/// Where a scan of a calendar's interior stands: the names of the open
/// components (innermost last), the lines of the open top-level component,
/// and the top-level components already closed.
pub ghost struct ScanState {
    pub stack: Seq<Seq<char>>,
    pub current: Seq<Seq<char>>,
    pub done: Seq<ComponentModel>,
}

pub open spec fn is_begin(l: Seq<char>) -> bool {
    prop_name(l) == "BEGIN"@
}

pub open spec fn is_end(l: Seq<char>) -> bool {
    prop_name(l) == "END"@
}

/// One line of the interior read in state `st`.
pub open spec fn scan_step(st: ScanState, l: Seq<char>) -> Result<ScanState, ParseError> {
    if !has_colon(l) {
        Err(ParseError::MalformedDocument)
    } else if is_begin(l) {
        Ok(
            ScanState {
                stack: st.stack.push(prop_value(l)),
                current: if st.stack.len() == 0 { seq![l] } else { st.current.push(l) },
                done: st.done,
            },
        )
    } else if is_end(l) {
        if st.stack.len() == 0 || st.stack.last() != prop_value(l) {
            Err(ParseError::MalformedDocument)
        } else if st.stack.len() == 1 {
            Ok(
                ScanState {
                    stack: st.stack.drop_last(),
                    current: Seq::empty(),
                    done: st.done.push(
                        ComponentModel { name: prop_value(l), lines: st.current.push(l) },
                    ),
                },
            )
        } else {
            Ok(ScanState { stack: st.stack.drop_last(), current: st.current.push(l), done: st.done })
        }
    } else if st.stack.len() > 0 {
        Ok(ScanState { stack: st.stack, current: st.current.push(l), done: st.done })
    } else {
        Ok(st)
    }
}

pub open spec fn empty_scan() -> ScanState {
    ScanState { stack: Seq::empty(), current: Seq::empty(), done: Seq::empty() }
}

/// The state after reading all of `ls`, or the first error met.
pub open spec fn scan(ls: Seq<Seq<char>>) -> Result<ScanState, ParseError>
    decreases ls.len(),
{
    if ls.len() == 0 {
        Ok(empty_scan())
    } else {
        match scan(ls.drop_last()) {
            Ok(st) => scan_step(st, ls.last()),
            Err(e) => Err(e),
        }
    }
}

/// The top-level components of a calendar's interior lines.
pub open spec fn components_of(ls: Seq<Seq<char>>) -> Result<Seq<ComponentModel>, ParseError> {
    match scan(ls) {
        Ok(st) => if st.stack.len() == 0 {
            Ok(st.done)
        } else {
            Err(ParseError::MalformedDocument)
        },
        Err(e) => Err(e),
    }
}

proof fn lemma_scan_error_stays(ls: Seq<Seq<char>>, k: int)
    requires
        0 <= k <= ls.len(),
        scan(ls.take(k)) is Err,
    ensures
        scan(ls) == scan(ls.take(k)),
    decreases ls.len() - k,
{
    if k < ls.len() {
        assert(ls.take(k + 1).drop_last() =~= ls.take(k));
        lemma_scan_error_stays(ls, k + 1);
    } else {
        assert(ls.take(k) =~= ls);
    }
}

pub open spec fn same_outcome(
    r: Result<Vec<Component>, ParseError>,
    m: Result<Seq<ComponentModel>, ParseError>,
) -> bool {
    match r {
        Ok(v) => m == Ok::<Seq<ComponentModel>, ParseError>(component_models(v@)),
        Err(e) => m == Err::<Seq<ComponentModel>, ParseError>(e),
    }
}

/// Splits the interior lines of a calendar into its top-level components.
/// Lines outside every component are left out.
pub fn extract_components(lines: &Vec<String>) -> (r: Result<Vec<Component>, ParseError>)
    ensures
        same_outcome(r, components_of(text_lines(lines@))),
{
    let ghost ls = text_lines(lines@);
    let begin_kw = String::from_str("BEGIN");
    let end_kw = String::from_str("END");
    let mut stack: Vec<String> = Vec::new();
    let mut current: Vec<String> = Vec::new();
    let mut done: Vec<Component> = Vec::new();
    proof {
        assert(ls.take(0) =~= Seq::<Seq<char>>::empty());
        assert(text_lines(stack@) =~= Seq::<Seq<char>>::empty());
        assert(text_lines(current@) =~= Seq::<Seq<char>>::empty());
        assert(component_models(done@) =~= Seq::<ComponentModel>::empty());
    }
    for i in 0..lines.len()
        invariant
            ls == text_lines(lines@),
            begin_kw@ == "BEGIN"@,
            end_kw@ == "END"@,
            scan(ls.take(i as int)) == Ok::<ScanState, ParseError>(
                ScanState {
                    stack: text_lines(stack@),
                    current: text_lines(current@),
                    done: component_models(done@),
                },
            ),
    {
        let line = lines[i].as_str();
        let ghost st = ScanState {
            stack: text_lines(stack@),
            current: text_lines(current@),
            done: component_models(done@),
        };
        proof {
            assert(ls.take(i + 1).drop_last() =~= ls.take(i as int));
            assert(ls[i as int] == line@);
            lemma_name_len_bound(line@);
        }
        let ci = match first_colon(line) {
            Some(ci) => ci,
            None => {
                proof {
                    lemma_scan_error_stays(ls, i + 1);
                }
                return Err(ParseError::MalformedDocument);
            },
        };
        let n = line.unicode_len();
        let name = String::from_str(line.substring_char(0, ci));
        let value = String::from_str(line.substring_char(ci + 1, n));
        if name.eq(&begin_kw) {
            if stack.len() == 0 {
                current = Vec::new();
            }
            current.push(lines[i].clone());
            stack.push(value);
            proof {
                assert(text_lines(stack@) =~= st.stack.push(prop_value(line@)));
                if st.stack.len() == 0 {
                    assert(text_lines(current@) =~= seq![line@]);
                } else {
                    assert(text_lines(current@) =~= st.current.push(line@));
                }
            }
        } else if name.eq(&end_kw) {
            if stack.len() == 0 {
                proof {
                    lemma_scan_error_stays(ls, i + 1);
                }
                return Err(ParseError::MalformedDocument);
            }
            if !stack[stack.len() - 1].eq(&value) {
                proof {
                    lemma_scan_error_stays(ls, i + 1);
                }
                return Err(ParseError::MalformedDocument);
            }
            current.push(lines[i].clone());
            stack.pop();
            assert(text_lines(stack@) =~= st.stack.drop_last());
            if stack.len() == 0 {
                let comp = Component { name: value, lines: current };
                done.push(comp);
                current = Vec::new();
                proof {
                    assert(text_lines(comp.lines@) =~= st.current.push(line@));
                    assert(component_models(done@) =~= st.done.push(
                        ComponentModel { name: prop_value(line@), lines: st.current.push(line@) },
                    ));
                    assert(text_lines(current@) =~= Seq::<Seq<char>>::empty());
                }
            } else {
                assert(text_lines(current@) =~= st.current.push(line@));
            }
        } else if stack.len() > 0 {
            current.push(lines[i].clone());
            assert(text_lines(current@) =~= st.current.push(line@));
        }
    }
    assert(ls.take(lines.len() as int) =~= ls);
    if stack.len() > 0 {
        return Err(ParseError::MalformedDocument);
    }
    Ok(done)
}

// ---------------------------------------------------------------------------
// Documents

/// Whether the first and last non-blank logical lines of a text are the
/// calendar's opening and closing markers.
pub open spec fn is_wrapped(text: Seq<char>) -> bool {
    let ls = logical_lines(lines_of(text));
    ls.len() >= 2 && ls[0] == "BEGIN:VCALENDAR"@ && ls.last() == "END:VCALENDAR"@
}

/// The logical lines between the calendar's opening and closing markers.
pub open spec fn calendar_interior(text: Seq<char>) -> Seq<Seq<char>> {
    let ls = logical_lines(lines_of(text));
    ls.subrange(1, ls.len() - 1)
}

/// What a calendar text holds: its top-level components, or why it was rejected.
pub open spec fn parse_calendar(text: Seq<char>) -> Result<Seq<ComponentModel>, ParseError> {
    if !is_wrapped(text) {
        Err(ParseError::InvalidDocument)
    } else {
        components_of(calendar_interior(text))
    }
}

/// Parses one calendar document into its top-level components. The document
/// must be exactly one `VCALENDAR` object; its own properties are dropped.
pub fn scrape_contents(calendar: &str) -> (r: Result<Vec<Component>, ParseError>)
    ensures
        same_outcome(r, parse_calendar(calendar@)),
{
    let physical = physical_lines(calendar);
    let ls = unfold_lines(&physical);
    let n = ls.len();
    if n < 2 {
        return Err(ParseError::InvalidDocument);
    }
    let open = String::from_str("BEGIN:VCALENDAR");
    let close = String::from_str("END:VCALENDAR");
    if !ls[0].eq(&open) || !ls[n - 1].eq(&close) {
        return Err(ParseError::InvalidDocument);
    }
    let mut interior: Vec<String> = Vec::new();
    for i in 1..n - 1
        invariant
            n == ls.len(),
            n >= 2,
            text_lines(interior@) =~= text_lines(ls@).subrange(1, i as int),
    {
        interior.push(ls[i].clone());
        assert(text_lines(ls@).subrange(1, i + 1) =~= text_lines(ls@).subrange(1, i as int).push(ls[i as int]@));
    }
    extract_components(&interior)
}

// ---------------------------------------------------------------------------
// Laws of the tokenizer

/// The lines of a sequence of components, one component after the other.
pub open spec fn all_lines(cs: Seq<ComponentModel>) -> Seq<Seq<char>>
    decreases cs.len(),
{
    if cs.len() == 0 {
        Seq::empty()
    } else {
        all_lines(cs.drop_last()) + cs.last().lines
    }
}

/// Whether line `k` of `ls` lies inside a top-level component: some
/// component is open when it is read, or it opens one.
pub open spec fn inside_component(ls: Seq<Seq<char>>, k: int) -> bool {
    scan(ls.take(k)) matches Ok(st) && (st.stack.len() > 0 || (has_colon(ls[k]) && is_begin(ls[k])))
}

/// The lines of `ls` that lie inside a top-level component, in order.
pub open spec fn component_lines(ls: Seq<Seq<char>>) -> Seq<Seq<char>>
    decreases ls.len(),
{
    if ls.len() == 0 {
        Seq::empty()
    } else {
        component_lines(ls.drop_last()) + if inside_component(ls, ls.len() - 1) {
            seq![ls.last()]
        } else {
            Seq::empty()
        }
    }
}

proof fn lemma_scan_prefix(ls: Seq<Seq<char>>, k: int)
    requires
        0 <= k <= ls.len(),
        scan(ls.take(k)) is Ok,
    ensures
        ({
            let st = scan(ls.take(k))->Ok_0;
            &&& all_lines(st.done) + st.current == component_lines(ls.take(k))
            &&& st.stack.len() == 0 ==> st.current.len() == 0
        }),
    decreases k,
{
    let p = ls.take(k);
    if k == 0 {
        assert(all_lines(Seq::<ComponentModel>::empty()) + Seq::<Seq<char>>::empty() =~= Seq::<
            Seq<char>,
        >::empty());
    } else {
        assert(p.drop_last() =~= ls.take(k - 1));
        if scan(ls.take(k - 1)) is Err {
            lemma_scan_error_stays(p, k - 1);
            assert(p.take(k - 1) =~= ls.take(k - 1));
        } else {
            lemma_scan_prefix(ls, k - 1);
            let st = scan(ls.take(k - 1))->Ok_0;
            let l = ls[k - 1];
            assert(p.last() == l);
            assert(p.take(k - 1) =~= ls.take(k - 1));
            let kept = component_lines(ls.take(k - 1));
            let nst = scan(p)->Ok_0;
            if is_end(l) && st.stack.len() == 1 && !is_begin(l) && has_colon(l) {
                let c = ComponentModel { name: prop_value(l), lines: st.current.push(l) };
                assert(all_lines(nst.done) == all_lines(st.done) + c.lines) by {
                    assert(nst.done.drop_last() =~= st.done);
                }
                assert(all_lines(nst.done) + nst.current =~= kept + seq![l]);
            } else if has_colon(l) && is_begin(l) && st.stack.len() == 0 {
                assert(all_lines(nst.done) + nst.current =~= kept + seq![l]);
            } else if inside_component(p, k - 1) {
                assert(all_lines(nst.done) + nst.current =~= kept + seq![l]);
            } else {
                assert(all_lines(nst.done) + nst.current =~= kept + Seq::<Seq<char>>::empty());
            }
        }
    }
}

/// Round trip of component bodies: when a calendar parses, its components'
/// lines, concatenated in order, are exactly the interior lines that lie
/// inside a component; only properties directly under the wrapper are gone.
pub proof fn components_reproduce_interior(text: Seq<char>)
    requires
        parse_calendar(text) is Ok,
    ensures
        all_lines(parse_calendar(text)->Ok_0) == component_lines(calendar_interior(text)),
{
    let ls = calendar_interior(text);
    assert(ls.take(ls.len() as int) =~= ls);
    lemma_scan_prefix(ls, ls.len() as int);
}

proof fn lemma_all_inside(ls: Seq<Seq<char>>)
    requires
        forall|k: int| 0 <= k < ls.len() ==> inside_component(ls, k),
    ensures
        component_lines(ls) == ls,
    decreases ls.len(),
{
    if ls.len() > 0 {
        let p = ls.drop_last();
        assert forall|k: int| 0 <= k < p.len() implies inside_component(p, k) by {
            assert(p.take(k) =~= ls.take(k));
            assert(inside_component(ls, k));
        }
        lemma_all_inside(p);
        assert(inside_component(ls, ls.len() - 1));
        assert(component_lines(ls) =~= ls);
    }
}

/// When every interior line of a calendar lies inside a component (no
/// property stands directly under the wrapper), its components' lines,
/// concatenated in order, are exactly its interior lines.
pub proof fn components_are_whole_interior(text: Seq<char>)
    requires
        parse_calendar(text) is Ok,
        forall|k: int|
            0 <= k < calendar_interior(text).len() ==> inside_component(calendar_interior(text), k),
    ensures
        all_lines(parse_calendar(text)->Ok_0) == calendar_interior(text),
{
    components_reproduce_interior(text);
    lemma_all_inside(calendar_interior(text));
}

/// A close marker that does not name the innermost open component (or that
/// closes when none is open) makes the whole document malformed.
pub proof fn mismatched_close_is_malformed(text: Seq<char>, k: int)
    requires
        is_wrapped(text),
        0 <= k < calendar_interior(text).len(),
        scan(calendar_interior(text).take(k)) is Ok,
        has_colon(calendar_interior(text)[k]),
        is_end(calendar_interior(text)[k]),
        ({
            let st = scan(calendar_interior(text).take(k))->Ok_0;
            st.stack.len() == 0 || st.stack.last() != prop_value(calendar_interior(text)[k])
        }),
    ensures
        parse_calendar(text) == Err::<Seq<ComponentModel>, ParseError>(
            ParseError::MalformedDocument,
        ),
{
    let ls = calendar_interior(text);
    reveal_strlit("BEGIN");
    reveal_strlit("END");
    assert("BEGIN"@.len() != "END"@.len());
    assert(!is_begin(ls[k]));
    assert(ls.take(k + 1).drop_last() =~= ls.take(k));
    lemma_scan_error_stays(ls, k + 1);
}

/// A text whose first or last non-blank line is not the calendar's opening
/// or closing marker is rejected as an invalid document.
pub proof fn unwrapped_is_invalid(text: Seq<char>)
    requires
        ({
            let ls = logical_lines(lines_of(text));
            ls.len() == 0 || ls[0] != "BEGIN:VCALENDAR"@ || ls.last() != "END:VCALENDAR"@
        }),
    ensures
        parse_calendar(text) == Err::<Seq<ComponentModel>, ParseError>(ParseError::InvalidDocument),
{
}

} // verus!
