//! The three-way sorted-merge classifier behind the `comm`-style tool.
//!
//! Two pre-sorted line streams are walked in lock step. While both streams
//! still have a current line, the smaller line is classified as belonging
//! only to its own side and that side advances; equal lines are classified
//! as common and both sides advance. Once one stream is exhausted, the rest
//! of the other prints as bare lines, bypassing the column flags — that
//! asymmetry is deliberate and pinned by the contracts below.
//!
//! Classification compares the lines as read; when case-insensitive
//! comparison is requested, each line is lowercased once at read time, so
//! the folded text is also what is printed.

use crate::order::{compare_lines, seq_le, seq_lt, sorted, LineOrder};
use vstd::prelude::*;
use vstd::string::StringExecFns;

verus! {

/// What one invocation of the tool was asked to do: the two input names
/// (a path, or `-` for standard input), the visibility of the three output
/// columns, case-insensitive comparison, and the column delimiter.
pub struct Config {
    pub file1: String,
    pub file2: String,
    pub show_col1: bool,
    pub show_col2: bool,
    pub show_col3: bool,
    pub insensitive: bool,
    pub delimiter: String,
}

/// One line classified by the merge: present only in the first input,
/// only in the second, or in both.
pub enum Column {
    Col1(String),
    Col2(String),
    Col3(String),
}

/// Spec-level image of a classified line.
pub enum ColumnModel {
    Col1(Seq<char>),
    Col2(Seq<char>),
    Col3(Seq<char>),
}

impl View for Column {
    type V = ColumnModel;

    open spec fn view(&self) -> ColumnModel {
        match self {
            Column::Col1(t) => ColumnModel::Col1(t@),
            Column::Col2(t) => ColumnModel::Col2(t@),
            Column::Col3(t) => ColumnModel::Col3(t@),
        }
    }
}

/// The text a classified line carries.
pub open spec fn col_text(c: ColumnModel) -> Seq<char> {
    match c {
        ColumnModel::Col1(t) => t,
        ColumnModel::Col2(t) => t,
        ColumnModel::Col3(t) => t,
    }
}

/// The classification stream of the three-way sorted merge. Each record
/// pairs the classified line with whether both sides were still present
/// when it was emitted; records emitted after one side was exhausted carry
/// `false` and later print unconditionally.
pub open spec fn classify(xs: Seq<Seq<char>>, ys: Seq<Seq<char>>) -> Seq<(ColumnModel, bool)>
    decreases xs.len() + ys.len(),
{
    if xs.len() == 0 && ys.len() == 0 {
        Seq::empty()
    } else if ys.len() == 0 {
        seq![(ColumnModel::Col1(xs[0]), false)] + classify(xs.drop_first(), ys)
    } else if xs.len() == 0 {
        seq![(ColumnModel::Col2(ys[0]), false)] + classify(xs, ys.drop_first())
    } else if xs[0] == ys[0] {
        seq![(ColumnModel::Col3(xs[0]), true)] + classify(xs.drop_first(), ys.drop_first())
    } else if seq_lt(xs[0], ys[0]) {
        seq![(ColumnModel::Col1(xs[0]), true)] + classify(xs.drop_first(), ys)
    } else {
        seq![(ColumnModel::Col2(ys[0]), true)] + classify(xs, ys.drop_first())
    }
}

/// How a record classified while both sides were present prints. A line only
/// in the first input prints only when column one is shown; a line only in
/// the second input always prints, with a leading placeholder when column
/// one is shown; a common line always prints, with one leading placeholder
/// per shown earlier column. The third column flag plays no part in
/// rendering; these asymmetries are deliberate and pinned here.
pub open spec fn render_merged(
    c: ColumnModel,
    show1: bool,
    show2: bool,
    delim: Seq<char>,
) -> Option<Seq<char>> {
    match c {
        ColumnModel::Col1(t) => if show1 {
            Some(t)
        } else {
            None
        },
        ColumnModel::Col2(t) => if show1 {
            Some(delim + t)
        } else {
            Some(t)
        },
        ColumnModel::Col3(t) => {
            let lead1: Seq<char> = if show1 {
                delim
            } else {
                Seq::empty()
            };
            let lead2: Seq<char> = if show2 {
                delim
            } else {
                Seq::empty()
            };
            Some(lead1 + lead2 + t)
        },
    }
}

/// How any record prints: records emitted on the exhaustion path print the
/// bare line, ignoring the column flags.
pub open spec fn render_record(
    e: (ColumnModel, bool),
    show1: bool,
    show2: bool,
    delim: Seq<char>,
) -> Option<Seq<char>> {
    if e.1 {
        render_merged(e.0, show1, show2, delim)
    } else {
        Some(col_text(e.0))
    }
}

/// The printed lines of a classification stream, in order, with suppressed
/// records dropped entirely (no blank lines).
pub open spec fn render_all(
    es: Seq<(ColumnModel, bool)>,
    show1: bool,
    show2: bool,
    delim: Seq<char>,
) -> Seq<Seq<char>>
    decreases es.len(),
{
    if es.len() == 0 {
        Seq::empty()
    } else {
        match render_record(es[0], show1, show2, delim) {
            Some(line) => seq![line] + render_all(es.drop_first(), show1, show2, delim),
            None => render_all(es.drop_first(), show1, show2, delim),
        }
    }
}

/// Named image of what `str::to_lowercase` returns for a given text.
pub uninterp spec fn lower_of(s: Seq<char>) -> Seq<char>;

/// Relies on str::to_lowercase: the lowercased text, a function of the input
/// characters alone.
#[verifier::external_body]
fn lowercase(s: &str) -> (r: String)
    ensures
        r@ == lower_of(s@),
{
    s.to_lowercase()
}

/// The read-time case fold: under case-insensitive comparison every line is
/// replaced by its lowercased form, otherwise the lines pass unchanged.
pub open spec fn fold_all(lines: Seq<Seq<char>>, insensitive: bool) -> Seq<Seq<char>> {
    if insensitive {
        lines.map_values(|l: Seq<char>| lower_of(l))
    } else {
        lines
    }
}

/// The output of a whole run: both inputs are case-folded as configured,
/// classified by the sorted merge, and rendered line by line.
pub open spec fn comm_spec(
    xs: Seq<Seq<char>>,
    ys: Seq<Seq<char>>,
    insensitive: bool,
    show1: bool,
    show2: bool,
    delim: Seq<char>,
) -> Seq<Seq<char>> {
    render_all(
        classify(fold_all(xs, insensitive), fold_all(ys, insensitive)),
        show1,
        show2,
        delim,
    )
}

/// Prepare one line for the merge: lowercase it when comparison is
/// case-insensitive, keep it as read otherwise.
pub fn fold_line(line: &String, insensitive: bool) -> (r: String)
    ensures
        r@ == if insensitive {
            lower_of(line@)
        } else {
            line@
        },
{
    if insensitive {
        lowercase(line.as_str())
    } else {
        line.clone()
    }
}

/// Prepare a whole input for the merge.
pub fn fold_lines(lines: &Vec<String>, insensitive: bool) -> (r: Vec<String>)
    ensures
        r.deep_view() == fold_all(lines.deep_view(), insensitive),
{
    let mut r: Vec<String> = Vec::new();
    let mut i: usize = 0;
    while i < lines.len()
        invariant
            i <= lines.len(),
            r@.len() == i,
            forall|k: int|
                0 <= k < i ==> r.deep_view()[k] == if insensitive {
                    lower_of(lines.deep_view()[k])
                } else {
                    lines.deep_view()[k]
                },
        decreases lines.len() - i,
    {
        let folded = fold_line(&lines[i], insensitive);
        let ghost prev = r.deep_view();
        let ghost fv = folded@;
        r.push(folded);
        proof {
            assert(lines.deep_view()[i as int] == lines@[i as int]@);
            assert(r.deep_view() =~= prev + seq![fv]);
        }
        i = i + 1;
    }
    proof {
        assert(r.deep_view() =~= fold_all(lines.deep_view(), insensitive));
    }
    r
}

impl Config {
    /// Both inputs naming standard input would read one stream twice; that
    /// is a configuration error, reported before any input is read.
    pub fn validate(&self) -> (r: Result<(), String>)
        ensures
            r is Err <==> (self.file1@ == "-"@ && self.file2@ == "-"@),
            r is Err ==> r->Err_0@ == "both input files cannot be STDIN (\"-\")"@,
    {
        let first_is_stdin = matches!(
            compare_lines(self.file1.as_str(), "-"),
            LineOrder::Equal
        );
        let second_is_stdin = matches!(
            compare_lines(self.file2.as_str(), "-"),
            LineOrder::Equal
        );
        if first_is_stdin && second_is_stdin {
            Err(String::from_str("both input files cannot be STDIN (\"-\")"))
        } else {
            Ok(())
        }
    }
}

/// Render one merge-phase record, exactly as the rendering spec says.
pub fn render_column(col: &Column, show1: bool, show2: bool, delimiter: &str) -> (r: Option<
    String,
>)
    ensures
        r is Some <==> render_merged(col@, show1, show2, delimiter@) is Some,
        r is Some ==> r->0@ == render_merged(col@, show1, show2, delimiter@)->0,
{
    match col {
        Column::Col1(val) => {
            if show1 {
                Some(val.clone())
            } else {
                None
            }
        },
        Column::Col2(val) => {
            let mut s = String::new();
            if show1 {
                s.append(delimiter);
            }
            s.append(val.as_str());
            proof {
                if show1 {
                    assert(s@ =~= delimiter@ + val@);
                } else {
                    assert(s@ =~= val@);
                }
            }
            Some(s)
        },
        Column::Col3(val) => {
            let mut s = String::new();
            if show1 {
                s.append(delimiter);
            }
            if show2 {
                s.append(delimiter);
            }
            s.append(val.as_str());
            proof {
                let lead1: Seq<char> = if show1 {
                    delimiter@
                } else {
                    Seq::empty()
                };
                let lead2: Seq<char> = if show2 {
                    delimiter@
                } else {
                    Seq::empty()
                };
                assert(s@ =~= lead1 + lead2 + val@);
            }
            Some(s)
        },
    }
}

/// Render one merge-phase record and append it to the output when it is
/// visible.
fn emit_column(out: &mut Vec<String>, col: Column, show1: bool, show2: bool, delimiter: &str)
    ensures
        final(out).deep_view() == match render_merged(col@, show1, show2, delimiter@) {
            Some(line) => old(out).deep_view() + seq![line],
            None => old(out).deep_view(),
        },
{
    let rendered = render_column(&col, show1, show2, delimiter);
    match rendered {
        Some(line) => {
            let ghost prev = out.deep_view();
            let ghost lv = line@;
            out.push(line);
            proof {
                assert(out.deep_view() =~= prev + seq![lv]);
            }
        },
        None => {
        },
    }
}

/// Append one exhaustion-path line, printed bare.
fn emit_bare(out: &mut Vec<String>, line: &String)
    ensures
        final(out).deep_view() == old(out).deep_view() + seq![line@],
{
    let ghost prev = out.deep_view();
    out.push(line.clone());
    proof {
        assert(out.deep_view() =~= prev + seq![line@]);
    }
}

/// The whole merge: fold both inputs as configured, classify them in one
/// lock-step pass, and collect the printed lines in order.
///
/// Both inputs must already be sorted for the classification to mean what
/// the tool promises; the merge itself runs on any input without checking
/// that, and this contract states its output exactly in either case.
pub fn comm_output(config: &Config, lines1: &Vec<String>, lines2: &Vec<String>) -> (out: Vec<
    String,
>)
    ensures
        out.deep_view() == comm_spec(
            lines1.deep_view(),
            lines2.deep_view(),
            config.insensitive,
            config.show_col1,
            config.show_col2,
            config.delimiter@,
        ),
{
    let xs = fold_lines(lines1, config.insensitive);
    let ys = fold_lines(lines2, config.insensitive);
    let ghost xsv = xs.deep_view();
    let ghost ysv = ys.deep_view();
    let ghost s1 = config.show_col1;
    let ghost s2 = config.show_col2;
    let ghost dv = config.delimiter@;
    let ghost total = render_all(classify(xsv, ysv), s1, s2, dv);
    let mut out: Vec<String> = Vec::new();
    let mut i: usize = 0;
    let mut j: usize = 0;
    proof {
        assert(xsv.skip(0) =~= xsv);
        assert(ysv.skip(0) =~= ysv);
        assert(out.deep_view() =~= Seq::<Seq<char>>::empty());
        assert(Seq::<Seq<char>>::empty() + total =~= total);
    }
    while i < xs.len() || j < ys.len()
        invariant
            i <= xs.len(),
            j <= ys.len(),
            xs.deep_view() == xsv,
            ys.deep_view() == ysv,
            total == render_all(classify(xsv, ysv), s1, s2, dv),
            s1 == config.show_col1,
            s2 == config.show_col2,
            dv == config.delimiter@,
            out.deep_view() + render_all(
                classify(xsv.skip(i as int), ysv.skip(j as int)),
                s1,
                s2,
                dv,
            ) == total,
        decreases xs.len() - i + ys.len() - j,
    {
        let ghost pre = out.deep_view();
        let ghost rx = xsv.skip(i as int);
        let ghost ry = ysv.skip(j as int);
        proof {
            if i < xs.len() {
                assert(xs.deep_view()[i as int] == xs@[i as int]@);
                assert(rx[0] == xsv[i as int]);
            }
            if j < ys.len() {
                assert(ys.deep_view()[j as int] == ys@[j as int]@);
                assert(ry[0] == ysv[j as int]);
            }
        }
        if i < xs.len() && j < ys.len() {
            match compare_lines(xs[i].as_str(), ys[j].as_str()) {
                LineOrder::Equal => {
                    let ghost head = (ColumnModel::Col3(rx[0]), true);
                    emit_column(
                        &mut out,
                        Column::Col3(xs[i].clone()),
                        config.show_col1,
                        config.show_col2,
                        config.delimiter.as_str(),
                    );
                    proof {
                        assert(classify(rx, ry) == seq![head] + classify(
                            rx.drop_first(),
                            ry.drop_first(),
                        ));
                        lemma_render_all_cons(
                            head,
                            classify(rx.drop_first(), ry.drop_first()),
                            s1,
                            s2,
                            dv,
                        );
                        assert(rx.drop_first() =~= xsv.skip(i + 1));
                        assert(ry.drop_first() =~= ysv.skip(j + 1));
                        lemma_step(
                            pre,
                            out.deep_view(),
                            render_record(head, s1, s2, dv),
                            render_all(classify(xsv.skip(i + 1), ysv.skip(j + 1)), s1, s2, dv),
                            total,
                        );
                    }
                    i = i + 1;
                    j = j + 1;
                },
                LineOrder::Less => {
                    let ghost head = (ColumnModel::Col1(rx[0]), true);
                    emit_column(
                        &mut out,
                        Column::Col1(xs[i].clone()),
                        config.show_col1,
                        config.show_col2,
                        config.delimiter.as_str(),
                    );
                    proof {
                        assert(classify(rx, ry) == seq![head] + classify(rx.drop_first(), ry));
                        lemma_render_all_cons(head, classify(rx.drop_first(), ry), s1, s2, dv);
                        assert(rx.drop_first() =~= xsv.skip(i + 1));
                        lemma_step(
                            pre,
                            out.deep_view(),
                            render_record(head, s1, s2, dv),
                            render_all(
                                classify(xsv.skip(i + 1), ysv.skip(j as int)),
                                s1,
                                s2,
                                dv,
                            ),
                            total,
                        );
                    }
                    i = i + 1;
                },
                LineOrder::Greater => {
                    let ghost head = (ColumnModel::Col2(ry[0]), true);
                    emit_column(
                        &mut out,
                        Column::Col2(ys[j].clone()),
                        config.show_col1,
                        config.show_col2,
                        config.delimiter.as_str(),
                    );
                    proof {
                        assert(classify(rx, ry) == seq![head] + classify(rx, ry.drop_first()));
                        lemma_render_all_cons(head, classify(rx, ry.drop_first()), s1, s2, dv);
                        assert(ry.drop_first() =~= ysv.skip(j + 1));
                        lemma_step(
                            pre,
                            out.deep_view(),
                            render_record(head, s1, s2, dv),
                            render_all(
                                classify(xsv.skip(i as int), ysv.skip(j + 1)),
                                s1,
                                s2,
                                dv,
                            ),
                            total,
                        );
                    }
                    j = j + 1;
                },
            }
        } else if i < xs.len() {
            let ghost head = (ColumnModel::Col1(rx[0]), false);
            emit_bare(&mut out, &xs[i]);
            proof {
                assert(classify(rx, ry) == seq![head] + classify(rx.drop_first(), ry));
                lemma_render_all_cons(head, classify(rx.drop_first(), ry), s1, s2, dv);
                assert(rx.drop_first() =~= xsv.skip(i + 1));
                lemma_step(
                    pre,
                    out.deep_view(),
                    render_record(head, s1, s2, dv),
                    render_all(classify(xsv.skip(i + 1), ysv.skip(j as int)), s1, s2, dv),
                    total,
                );
            }
            i = i + 1;
        } else {
            let ghost head = (ColumnModel::Col2(ry[0]), false);
            emit_bare(&mut out, &ys[j]);
            proof {
                assert(classify(rx, ry) == seq![head] + classify(rx, ry.drop_first()));
                lemma_render_all_cons(head, classify(rx, ry.drop_first()), s1, s2, dv);
                assert(ry.drop_first() =~= ysv.skip(j + 1));
                lemma_step(
                    pre,
                    out.deep_view(),
                    render_record(head, s1, s2, dv),
                    render_all(classify(xsv.skip(i as int), ysv.skip(j + 1)), s1, s2, dv),
                    total,
                );
            }
            j = j + 1;
        }
    }
    proof {
        assert(xsv.skip(i as int) =~= Seq::<Seq<char>>::empty());
        assert(ysv.skip(j as int) =~= Seq::<Seq<char>>::empty());
        assert(out.deep_view() + Seq::<Seq<char>>::empty() =~= out.deep_view());
        assert(out.deep_view() =~= total);
    }
    out
}

/// Number of records classified as only-in-first.
pub open spec fn count_col1(es: Seq<(ColumnModel, bool)>) -> nat
    decreases es.len(),
{
    if es.len() == 0 {
        0
    } else {
        (if es[0].0 is Col1 {
            1nat
        } else {
            0nat
        }) + count_col1(es.drop_first())
    }
}

/// Number of records classified as only-in-second.
pub open spec fn count_col2(es: Seq<(ColumnModel, bool)>) -> nat
    decreases es.len(),
{
    if es.len() == 0 {
        0
    } else {
        (if es[0].0 is Col2 {
            1nat
        } else {
            0nat
        }) + count_col2(es.drop_first())
    }
}

/// Number of records classified as common to both inputs.
pub open spec fn count_col3(es: Seq<(ColumnModel, bool)>) -> nat
    decreases es.len(),
{
    if es.len() == 0 {
        0
    } else {
        (if es[0].0 is Col3 {
            1nat
        } else {
            0nat
        }) + count_col3(es.drop_first())
    }
}

/// The texts a classification stream carries, in emission order.
pub open spec fn classified_texts(es: Seq<(ColumnModel, bool)>) -> Seq<Seq<char>>
    decreases es.len(),
{
    if es.len() == 0 {
        Seq::empty()
    } else {
        seq![col_text(es[0].0)] + classified_texts(es.drop_first())
    }
}

/// Prepending one record to a classification stream adjusts each count by
/// the record's own class and prepends its text.
proof fn lemma_stream_cons(h: (ColumnModel, bool), rest: Seq<(ColumnModel, bool)>)
    ensures
        count_col1(seq![h] + rest) == (if h.0 is Col1 {
            1nat
        } else {
            0nat
        }) + count_col1(rest),
        count_col2(seq![h] + rest) == (if h.0 is Col2 {
            1nat
        } else {
            0nat
        }) + count_col2(rest),
        count_col3(seq![h] + rest) == (if h.0 is Col3 {
            1nat
        } else {
            0nat
        }) + count_col3(rest),
        classified_texts(seq![h] + rest) == seq![col_text(h.0)] + classified_texts(rest),
{
    let es = seq![h] + rest;
    assert(es[0] == h);
    assert(es.drop_first() =~= rest);
}

/// A sorted stream stays sorted after its first line is consumed, and that
/// first line bounds the rest from below.
proof fn lemma_sorted_drop_first(s: Seq<Seq<char>>)
    requires
        sorted(s),
        s.len() > 0,
    ensures
        sorted(s.drop_first()),
        forall|k: int| 0 <= k < s.drop_first().len() ==> seq_le(s[0], s.drop_first()[k]),
{
    assert forall|i: int, j: int|
        0 <= i < j < s.drop_first().len() implies seq_le(
        s.drop_first()[i],
        s.drop_first()[j],
    ) by {
        assert(s.drop_first()[i] == s[i + 1]);
        assert(s.drop_first()[j] == s[j + 1]);
    }
    assert forall|k: int| 0 <= k < s.drop_first().len() implies seq_le(
        s[0],
        s.drop_first()[k],
    ) by {
        assert(s.drop_first()[k] == s[k + 1]);
    }
}

/// A lower bound of a head text and of a stream of texts bounds the whole
/// stream.
proof fn lemma_bound_cons(lo: Seq<char>, t: Seq<char>, ts: Seq<Seq<char>>)
    requires
        seq_le(lo, t),
        forall|k: int| 0 <= k < ts.len() ==> seq_le(lo, ts[k]),
    ensures
        forall|k: int| 0 <= k < (seq![t] + ts).len() ==> seq_le(lo, (seq![t] + ts)[k]),
{
    assert forall|k: int| 0 <= k < (seq![t] + ts).len() implies seq_le(lo, (seq![t] + ts)[k]) by {
        if k > 0 {
            assert((seq![t] + ts)[k] == ts[k - 1]);
        }
    }
}

/// Every text the merge emits is bounded below by any lower bound of both
/// inputs.
proof fn lemma_classify_lower_bound(xs: Seq<Seq<char>>, ys: Seq<Seq<char>>, lo: Seq<char>)
    requires
        forall|k: int| 0 <= k < xs.len() ==> seq_le(lo, xs[k]),
        forall|k: int| 0 <= k < ys.len() ==> seq_le(lo, ys[k]),
    ensures
        forall|k: int|
            0 <= k < classified_texts(classify(xs, ys)).len() ==> seq_le(
                lo,
                classified_texts(classify(xs, ys))[k],
            ),
    decreases xs.len() + ys.len(),
{
    if xs.len() == 0 && ys.len() == 0 {
    } else {
        if xs.len() > 0 {
            assert forall|k: int| 0 <= k < xs.drop_first().len() implies seq_le(
                lo,
                xs.drop_first()[k],
            ) by {
                assert(xs.drop_first()[k] == xs[k + 1]);
            }
        }
        if ys.len() > 0 {
            assert forall|k: int| 0 <= k < ys.drop_first().len() implies seq_le(
                lo,
                ys.drop_first()[k],
            ) by {
                assert(ys.drop_first()[k] == ys[k + 1]);
            }
        }
        if ys.len() == 0 {
            lemma_classify_lower_bound(xs.drop_first(), ys, lo);
            lemma_stream_cons((ColumnModel::Col1(xs[0]), false), classify(xs.drop_first(), ys));
            lemma_bound_cons(lo, xs[0], classified_texts(classify(xs.drop_first(), ys)));
        } else if xs.len() == 0 {
            lemma_classify_lower_bound(xs, ys.drop_first(), lo);
            lemma_stream_cons((ColumnModel::Col2(ys[0]), false), classify(xs, ys.drop_first()));
            lemma_bound_cons(lo, ys[0], classified_texts(classify(xs, ys.drop_first())));
        } else if xs[0] == ys[0] {
            lemma_classify_lower_bound(xs.drop_first(), ys.drop_first(), lo);
            lemma_stream_cons(
                (ColumnModel::Col3(xs[0]), true),
                classify(xs.drop_first(), ys.drop_first()),
            );
            lemma_bound_cons(
                lo,
                xs[0],
                classified_texts(classify(xs.drop_first(), ys.drop_first())),
            );
        } else if seq_lt(xs[0], ys[0]) {
            lemma_classify_lower_bound(xs.drop_first(), ys, lo);
            lemma_stream_cons((ColumnModel::Col1(xs[0]), true), classify(xs.drop_first(), ys));
            lemma_bound_cons(lo, xs[0], classified_texts(classify(xs.drop_first(), ys)));
        } else {
            lemma_classify_lower_bound(xs, ys.drop_first(), lo);
            lemma_stream_cons((ColumnModel::Col2(ys[0]), true), classify(xs, ys.drop_first()));
            lemma_bound_cons(lo, ys[0], classified_texts(classify(xs, ys.drop_first())));
        }
    }
}

/// Sorted inputs merge to a sorted emission: the texts of the classification
/// stream appear in merged sorted order.
pub proof fn lemma_merged_order(xs: Seq<Seq<char>>, ys: Seq<Seq<char>>)
    requires
        sorted(xs),
        sorted(ys),
    ensures
        sorted(classified_texts(classify(xs, ys))),
    decreases xs.len() + ys.len(),
{
    if xs.len() == 0 && ys.len() == 0 {
    } else if ys.len() == 0 {
        lemma_sorted_drop_first(xs);
        lemma_merged_order(xs.drop_first(), ys);
        lemma_classify_lower_bound(xs.drop_first(), ys, xs[0]);
        lemma_stream_cons((ColumnModel::Col1(xs[0]), false), classify(xs.drop_first(), ys));
        lemma_texts_cons_sorted(xs[0], classify(xs.drop_first(), ys));
    } else if xs.len() == 0 {
        lemma_sorted_drop_first(ys);
        lemma_merged_order(xs, ys.drop_first());
        lemma_classify_lower_bound(xs, ys.drop_first(), ys[0]);
        lemma_stream_cons((ColumnModel::Col2(ys[0]), false), classify(xs, ys.drop_first()));
        lemma_texts_cons_sorted(ys[0], classify(xs, ys.drop_first()));
    } else if xs[0] == ys[0] {
        lemma_sorted_drop_first(xs);
        lemma_sorted_drop_first(ys);
        lemma_merged_order(xs.drop_first(), ys.drop_first());
        lemma_classify_lower_bound(xs.drop_first(), ys.drop_first(), xs[0]);
        lemma_stream_cons(
            (ColumnModel::Col3(xs[0]), true),
            classify(xs.drop_first(), ys.drop_first()),
        );
        lemma_texts_cons_sorted(xs[0], classify(xs.drop_first(), ys.drop_first()));
    } else if seq_lt(xs[0], ys[0]) {
        lemma_sorted_drop_first(xs);
        lemma_merged_order(xs.drop_first(), ys);
        assert forall|k: int| 0 <= k < ys.len() implies seq_le(xs[0], ys[k]) by {
            crate::order::lemma_le_trans(xs[0], ys[0], ys[k]);
        }
        lemma_classify_lower_bound(xs.drop_first(), ys, xs[0]);
        lemma_stream_cons((ColumnModel::Col1(xs[0]), true), classify(xs.drop_first(), ys));
        lemma_texts_cons_sorted(xs[0], classify(xs.drop_first(), ys));
    } else {
        crate::order::lemma_trichotomy(xs[0], ys[0]);
        lemma_sorted_drop_first(ys);
        lemma_merged_order(xs, ys.drop_first());
        assert forall|k: int| 0 <= k < xs.len() implies seq_le(ys[0], xs[k]) by {
            crate::order::lemma_le_trans(ys[0], xs[0], xs[k]);
        }
        lemma_classify_lower_bound(xs, ys.drop_first(), ys[0]);
        lemma_stream_cons((ColumnModel::Col2(ys[0]), true), classify(xs, ys.drop_first()));
        lemma_texts_cons_sorted(ys[0], classify(xs, ys.drop_first()));
    }
}

/// A text that bounds a sorted stream from below extends it to a sorted
/// stream.
proof fn lemma_texts_cons_sorted(t: Seq<char>, rest: Seq<(ColumnModel, bool)>)
    requires
        sorted(classified_texts(rest)),
        forall|k: int|
            0 <= k < classified_texts(rest).len() ==> seq_le(t, classified_texts(rest)[k]),
    ensures
        sorted(seq![t] + classified_texts(rest)),
{
    let all = seq![t] + classified_texts(rest);
    assert forall|i: int, j: int| 0 <= i < j < all.len() implies seq_le(all[i], all[j]) by {
        if i == 0 {
            assert(all[j] == classified_texts(rest)[j - 1]);
        } else {
            assert(all[i] == classified_texts(rest)[i - 1]);
            assert(all[j] == classified_texts(rest)[j - 1]);
        }
    }
}

/// Sorted, disjoint inputs classify to one only-in-first record per line of
/// the first input and one only-in-second record per line of the second,
/// with no common record, their texts in merged sorted order.
pub proof fn lemma_disjoint_inputs(xs: Seq<Seq<char>>, ys: Seq<Seq<char>>)
    requires
        sorted(xs),
        sorted(ys),
        forall|a: int, b: int| 0 <= a < xs.len() && 0 <= b < ys.len() ==> xs[a] != ys[b],
    ensures
        classify(xs, ys).len() == xs.len() + ys.len(),
        count_col1(classify(xs, ys)) == xs.len(),
        count_col2(classify(xs, ys)) == ys.len(),
        count_col3(classify(xs, ys)) == 0,
        sorted(classified_texts(classify(xs, ys))),
    decreases xs.len() + ys.len(),
{
    lemma_merged_order(xs, ys);
    if xs.len() == 0 && ys.len() == 0 {
    } else if ys.len() == 0 {
        lemma_sorted_drop_first(xs);
        lemma_disjoint_inputs(xs.drop_first(), ys);
        lemma_stream_cons((ColumnModel::Col1(xs[0]), false), classify(xs.drop_first(), ys));
    } else if xs.len() == 0 {
        lemma_sorted_drop_first(ys);
        lemma_disjoint_inputs(xs, ys.drop_first());
        lemma_stream_cons((ColumnModel::Col2(ys[0]), false), classify(xs, ys.drop_first()));
    } else if xs[0] == ys[0] {
        assert(false);
    } else if seq_lt(xs[0], ys[0]) {
        lemma_sorted_drop_first(xs);
        assert forall|a: int, b: int|
            0 <= a < xs.drop_first().len() && 0 <= b < ys.len() implies xs.drop_first()[a]
            != ys[b] by {
            assert(xs.drop_first()[a] == xs[a + 1]);
        }
        lemma_disjoint_inputs(xs.drop_first(), ys);
        lemma_stream_cons((ColumnModel::Col1(xs[0]), true), classify(xs.drop_first(), ys));
    } else {
        lemma_sorted_drop_first(ys);
        assert forall|a: int, b: int|
            0 <= a < xs.len() && 0 <= b < ys.drop_first().len() implies xs[a]
            != ys.drop_first()[b] by {
            assert(ys.drop_first()[b] == ys[b + 1]);
        }
        lemma_disjoint_inputs(xs, ys.drop_first());
        lemma_stream_cons((ColumnModel::Col2(ys[0]), true), classify(xs, ys.drop_first()));
    }
}

/// Identical inputs: when both inputs hold the same lines, every record is
/// classified as common, in input order, and no one-sided record is emitted.
pub proof fn lemma_identical_inputs(xs: Seq<Seq<char>>)
    ensures
        classify(xs, xs).len() == xs.len(),
        forall|k: int|
            0 <= k < xs.len() ==> classify(xs, xs)[k] == (ColumnModel::Col3(xs[k]), true),
        count_col1(classify(xs, xs)) == 0,
        count_col2(classify(xs, xs)) == 0,
        count_col3(classify(xs, xs)) == xs.len(),
    decreases xs.len(),
{
    if xs.len() == 0 {
    } else {
        lemma_identical_inputs(xs.drop_first());
        let rest = classify(xs.drop_first(), xs.drop_first());
        let es = classify(xs, xs);
        lemma_stream_cons((ColumnModel::Col3(xs[0]), true), rest);
        assert forall|k: int|
            0 <= k < xs.len() implies es[k] == (ColumnModel::Col3(xs[k]), true) by {
            if k > 0 {
                assert(es[k] == rest[k - 1]);
                assert(xs.drop_first()[k - 1] == xs[k]);
            }
        }
    }
}

/// With columns one and two suppressed, a classification stream made only of
/// merge-phase common records prints exactly its texts, bare, with no
/// placeholders. (Records emitted on an exhaustion path, and one-sided
/// records from the merge, print even under suppression, so they are left
/// out here.)
pub proof fn lemma_suppressed_columns(es: Seq<(ColumnModel, bool)>, delim: Seq<char>)
    requires
        forall|k: int| 0 <= k < es.len() ==> es[k].0 is Col3 && es[k].1,
    ensures
        render_all(es, false, false, delim) == classified_texts(es),
    decreases es.len(),
{
    if es.len() == 0 {
    } else {
        assert(es[0].0 is Col3 && es[0].1);
        let t = col_text(es[0].0);
        assert(Seq::<char>::empty() + Seq::<char>::empty() + t =~= t);
        assert forall|k: int|
            0 <= k < es.drop_first().len() implies es.drop_first()[k].0 is Col3
            && es.drop_first()[k].1 by {
            assert(es.drop_first()[k] == es[k + 1]);
        }
        lemma_suppressed_columns(es.drop_first(), delim);
    }
}

/// The delimiter only joins columns: which records print is independent of
/// it, so the same number of lines prints under any delimiter.
pub proof fn lemma_delimiter_independent(
    es: Seq<(ColumnModel, bool)>,
    show1: bool,
    show2: bool,
    d1: Seq<char>,
    d2: Seq<char>,
)
    ensures
        forall|k: int|
            0 <= k < es.len() ==> (render_record(es[k], show1, show2, d1) is Some
                <==> render_record(es[k], show1, show2, d2) is Some),
        render_all(es, show1, show2, d1).len() == render_all(es, show1, show2, d2).len(),
    decreases es.len(),
{
    if es.len() == 0 {
    } else {
        lemma_delimiter_independent(es.drop_first(), show1, show2, d1, d2);
        assert forall|k: int|
            0 <= k < es.len() implies (render_record(es[k], show1, show2, d1) is Some
            <==> render_record(es[k], show1, show2, d2) is Some) by {
            if k > 0 {
                assert(es.drop_first()[k - 1] == es[k]);
            }
        }
    }
}

/// A classification stream carries one text per record, in order.
proof fn lemma_classified_texts_pointwise(es: Seq<(ColumnModel, bool)>)
    ensures
        classified_texts(es).len() == es.len(),
        forall|k: int| 0 <= k < es.len() ==> classified_texts(es)[k] == col_text(es[k].0),
    decreases es.len(),
{
    if es.len() > 0 {
        lemma_classified_texts_pointwise(es.drop_first());
        assert forall|k: int|
            0 <= k < es.len() implies classified_texts(es)[k] == col_text(es[k].0) by {
            if k > 0 {
                assert(classified_texts(es)[k] == classified_texts(es.drop_first())[k - 1]);
                assert(es.drop_first()[k - 1] == es[k]);
            }
        }
    }
}

/// A whole run on two identical inputs with the first two columns
/// suppressed prints exactly the input lines, bare: every record is common,
/// and suppression leaves no placeholder in front of a common line.
pub proof fn lemma_identical_suppressed_run(xs: Seq<Seq<char>>, delim: Seq<char>)
    ensures
        comm_spec(xs, xs, false, false, false, delim) == xs,
{
    let es = classify(xs, xs);
    lemma_identical_inputs(xs);
    lemma_suppressed_columns(es, delim);
    lemma_classified_texts_pointwise(es);
    assert(classified_texts(es) =~= xs);
}

/// Two lines with the same lowercased form classify as common under
/// case-insensitive comparison, whatever their original case.
pub proof fn lemma_insensitive_groups(a: Seq<char>, b: Seq<char>)
    requires
        lower_of(a) == lower_of(b),
    ensures
        classify(fold_all(seq![a], true), fold_all(seq![b], true)) == seq![
            (ColumnModel::Col3(lower_of(a)), true),
        ],
{
    let xs = fold_all(seq![a], true);
    let ys = fold_all(seq![b], true);
    assert(xs =~= seq![lower_of(a)]);
    assert(ys =~= seq![lower_of(b)]);
    assert(xs.drop_first() =~= Seq::<Seq<char>>::empty());
    assert(ys.drop_first() =~= Seq::<Seq<char>>::empty());
    assert(xs[0] == lower_of(a) && ys[0] == lower_of(b));
    assert(classify(xs.drop_first(), ys.drop_first()) =~= Seq::<(ColumnModel, bool)>::empty());
    assert(classify(xs, ys) =~= seq![(ColumnModel::Col3(lower_of(a)), true)]);
}

/// Rendering a non-empty stream renders its head, then the rest.
proof fn lemma_render_all_cons(
    head: (ColumnModel, bool),
    rest: Seq<(ColumnModel, bool)>,
    show1: bool,
    show2: bool,
    delim: Seq<char>,
)
    ensures
        render_all(seq![head] + rest, show1, show2, delim) == match render_record(
            head,
            show1,
            show2,
            delim,
        ) {
            Some(line) => seq![line] + render_all(rest, show1, show2, delim),
            None => render_all(rest, show1, show2, delim),
        },
{
    let es = seq![head] + rest;
    assert(es[0] == head);
    assert(es.drop_first() =~= rest);
}

/// One merge step keeps the loop's accounting: what is printed so far plus
/// what the remaining streams will print is the whole output.
proof fn lemma_step(
    pre: Seq<Seq<char>>,
    cur: Seq<Seq<char>>,
    rendered: Option<Seq<char>>,
    rest: Seq<Seq<char>>,
    total: Seq<Seq<char>>,
)
    requires
        pre + (match rendered {
            Some(line) => seq![line] + rest,
            None => rest,
        }) == total,
        cur == match rendered {
            Some(line) => pre + seq![line],
            None => pre,
        },
    ensures
        cur + rest == total,
{
    match rendered {
        Some(line) => {
            assert((pre + seq![line]) + rest =~= pre + (seq![line] + rest));
        },
        None => {
        },
    }
}

} // verus!
