use vstd::prelude::*;
use crate::error::ScheduleError;
use crate::scheduler::Scheduler;

verus! {

/// Every character of `s` is an ASCII digit, and there is at least one.
pub open spec fn is_digits(s: Seq<char>) -> bool {
    s.len() > 0 && forall|i: int| 0 <= i < s.len() ==> '0' <= #[trigger] s[i] <= '9'
}

/// Value of `s` read as a base-10 numeral.
pub open spec fn decimal_value(s: Seq<char>) -> int
    decreases s.len(),
{
    if s.len() == 0 {
        0
    } else {
        decimal_value(s.drop_last()) * 10 + (s.last() as int - '0' as int)
    }
}

/// The duration that the field `s` spells, if it is a numeral that fits in 16 bits.
pub open spec fn duration_spec(s: Seq<char>) -> Option<u16> {
    if is_digits(s) && decimal_value(s) <= u16::MAX {
        Some(decimal_value(s) as u16)
    } else {
        None
    }
}

proof fn lemma_decimal_nonneg(s: Seq<char>)
    requires
        forall|i: int| 0 <= i < s.len() ==> '0' <= #[trigger] s[i] <= '9',
    ensures
        decimal_value(s) >= 0,
    decreases s.len(),
{
    if s.len() > 0 {
        lemma_decimal_nonneg(s.drop_last());
    }
}

/// Reads the characters of `text` between positions `from` and `to` as a
/// duration.
pub fn parse_duration(text: &str, from: usize, to: usize) -> (r: Option<u16>)
    requires
        from <= to <= text@.len(),
    ensures
        r == duration_spec(text@.subrange(from as int, to as int)),
{
    let ghost f = text@.subrange(from as int, to as int);
    let cap: u32 = 65536;
    let mut v: u32 = 0;
    let mut i: usize = from;
    while i < to
        invariant
            from <= i <= to <= text@.len(),
            f == text@.subrange(from as int, to as int),
            forall|j: int| 0 <= j < i - from ==> '0' <= #[trigger] f[j] <= '9',
            v as int == if decimal_value(f.subrange(0, i - from)) < cap as int {
                decimal_value(f.subrange(0, i - from))
            } else {
                cap as int
            },
            cap == 65536,
        decreases to - i,
    {
        let c = text.get_char(i);
        if c < '0' || c > '9' {
            assert(f[i - from] == c);
            return None;
        }
        let d: u32 = (c as u32) - ('0' as u32);
        let ghost a = decimal_value(f.subrange(0, i - from));
        proof {
            assert(f.subrange(0, i + 1 - from).drop_last() =~= f.subrange(0, i - from));
            assert(f[i - from] == c);
            lemma_decimal_nonneg(f.subrange(0, i - from));
        }
        assert(decimal_value(f.subrange(0, i + 1 - from)) == a * 10 + d);
        let w: u32 = v * 10 + d;
        if w >= cap {
            v = cap;
        } else {
            v = w;
        }
        proof {
            assert(v as int == if a * 10 + d < 65536 { a * 10 + d } else { 65536 }) by (nonlinear_arith)
                requires
                    v as int == if w >= 65536 { 65536 } else { w as int },
                    w as int == (if a < 65536 { a } else { 65536 }) * 10 + d,
                    a >= 0,
                    0 <= d <= 9,
            ;
        }
        i = i + 1;
    }
    assert(f.subrange(0, to - from) =~= f);
    if i == from || v > 65535 {
        None
    } else {
        Some(v as u16)
    }
}

} // verus!

verus! {

/// The pieces of `text[from..to]` between occurrences of `sep`, as
/// `(start, end)` positions: one more piece than there are separators.
pub open spec fn splits(text: Seq<char>, from: int, to: int, sep: char) -> Seq<(int, int)>
    decreases to - from,
{
    if to <= from {
        seq![(from, from)]
    } else {
        let s = splits(text, from, to - 1, sep);
        if text[to - 1] == sep {
            s.push((to, to))
        } else {
            s.update(s.len() - 1, (s.last().0, to))
        }
    }
}

/// Positions held in machine integers, as mathematical integers.
pub open spec fn spans(r: Seq<(usize, usize)>) -> Seq<(int, int)> {
    r.map_values(|p: (usize, usize)| (p.0 as int, p.1 as int))
}

/// A range without the `\r` that ends it, if one does.
pub open spec fn trim_cr(text: Seq<char>, p: (int, int)) -> (int, int) {
    if p.0 < p.1 && text[p.1 - 1] == '\r' {
        (p.0, p.1 - 1)
    } else {
        p
    }
}

/// The lines of `text`: the pieces between `\n`s, without an empty last
/// piece, each without a final `\r`.
pub open spec fn line_spans(text: Seq<char>) -> Seq<(int, int)> {
    let segs = splits(text, 0, text.len() as int, '\n');
    let kept = if segs.last().0 == segs.last().1 {
        segs.drop_last()
    } else {
        segs
    };
    kept.map_values(|p: (int, int)| trim_cr(text, p))
}

pub open spec fn field_text(text: Seq<char>, f: (int, int)) -> Seq<char> {
    text.subrange(f.0, f.1)
}

/// The `;`-separated fields of line `k`.
pub open spec fn fields_of(text: Seq<char>, k: int) -> Seq<(int, int)> {
    let l = line_spans(text)[k];
    splits(text, l.0, l.1, ';')
}

/// The non-empty fields among the fields from position 3 to `q` of `fs`.
pub open spec fn dep_fields(text: Seq<char>, fs: Seq<(int, int)>, q: int) -> Seq<Seq<char>>
    decreases q,
{
    if q <= 3 {
        Seq::empty()
    } else {
        let d = dep_fields(text, fs, q - 1);
        if fs[q - 1].0 < fs[q - 1].1 {
            d.push(field_text(text, fs[q - 1]))
        } else {
            d
        }
    }
}

/// Line `k` has at least three fields and its third is a duration.
pub open spec fn record_ok(text: Seq<char>, k: int) -> bool {
    &&& fields_of(text, k).len() >= 3
    &&& duration_spec(field_text(text, fields_of(text, k)[2])) is Some
}

pub open spec fn records_ok(text: Seq<char>) -> bool {
    forall|k: int| 0 <= k < line_spans(text).len() ==> #[trigger] record_ok(text, k)
}

pub open spec fn record_name(text: Seq<char>, k: int) -> Seq<char> {
    field_text(text, fields_of(text, k)[0])
}

pub open spec fn record_duration(text: Seq<char>, k: int) -> u16 {
    duration_spec(field_text(text, fields_of(text, k)[2]))->0
}

pub open spec fn record_deps(text: Seq<char>, k: int) -> Seq<Seq<char>> {
    dep_fields(text, fields_of(text, k), fields_of(text, k).len() as int)
}

/// No two lines carry the same identifier.
pub open spec fn names_distinct(text: Seq<char>) -> bool {
    forall|i: int, j: int| 0 <= i < j < line_spans(text).len()
        ==> #[trigger] record_name(text, i) != #[trigger] record_name(text, j)
}

pub open spec fn declares_name(text: Seq<char>, n: Seq<char>) -> bool {
    exists|k: int| 0 <= k < line_spans(text).len() && #[trigger] record_name(text, k) == n
}

/// Every non-empty dependency field names the identifier of some line.
pub open spec fn deps_declared(text: Seq<char>) -> bool {
    forall|k: int, q: int| 0 <= k < line_spans(text).len() && 0 <= q < record_deps(text, k).len()
        ==> declares_name(text, #[trigger] record_deps(text, k)[q])
}

pub proof fn lemma_splits_bounds(text: Seq<char>, from: int, to: int, sep: char)
    requires
        from <= to,
    ensures
        splits(text, from, to, sep).len() >= 1,
        splits(text, from, to, sep)[0].0 == from,
        splits(text, from, to, sep).last().1 == to,
        forall|k: int| 0 <= k < splits(text, from, to, sep).len()
            ==> from <= (#[trigger] splits(text, from, to, sep)[k]).0 <= splits(text, from, to, sep)[k].1 <= to,
    decreases to - from,
{
    if to > from {
        lemma_splits_bounds(text, from, to - 1, sep);
    }
}

pub proof fn lemma_lines_bounds(text: Seq<char>)
    ensures
        forall|k: int| 0 <= k < line_spans(text).len()
            ==> 0 <= (#[trigger] line_spans(text)[k]).0 <= line_spans(text)[k].1 <= text.len(),
{
    lemma_splits_bounds(text, 0, text.len() as int, '\n');
}

/// Boundaries `(start, end)` of the pieces of `text[from..to]` between
/// occurrences of `sep`.
pub fn split_ranges(text: &str, from: usize, to: usize, sep: char) -> (r: Vec<(usize, usize)>)
    requires
        from <= to <= text@.len(),
    ensures
        spans(r@) == splits(text@, from as int, to as int, sep),
{
    let mut r: Vec<(usize, usize)> = Vec::new();
    let mut start: usize = from;
    let mut i: usize = from;
    while i < to
        invariant
            from <= start <= i <= to <= text@.len(),
            spans(r@).push((start as int, i as int)) == splits(text@, from as int, i as int, sep),
        decreases to - i,
    {
        let ghost prev = splits(text@, from as int, i as int, sep);
        if text.get_char(i) == sep {
            r.push((start, i));
            start = i + 1;
            assert(spans(r@) =~= prev);
        } else {
            assert(spans(r@).push((start as int, i + 1)) =~= prev.update(prev.len() - 1, (prev.last().0, i + 1)));
        }
        i = i + 1;
    }
    r.push((start, to));
    assert(spans(r@) =~= splits(text@, from as int, to as int, sep));
    r
}

/// Boundaries `(start, end)` of the lines of `text`.
pub fn line_ranges(text: &str) -> (r: Vec<(usize, usize)>)
    ensures
        spans(r@) == line_spans(text@),
{
    let n = text.unicode_len();
    let segs = split_ranges(text, 0, n, '\n');
    proof {
        lemma_splits_bounds(text@, 0, n as int, '\n');
    }
    let mut m = segs.len();
    let (a, b) = segs[m - 1];
    if a == b {
        m = m - 1;
    }
    let ghost sg = splits(text@, 0, n as int, '\n');
    let ghost kept = if sg.last().0 == sg.last().1 { sg.drop_last() } else { sg };
    assert(spans(segs@)[segs@.len() - 1] == sg.last());
    let mut r: Vec<(usize, usize)> = Vec::new();
    let mut k: usize = 0;
    while k < m
        invariant
            n == text@.len(),
            spans(segs@) == sg,
            m == kept.len(),
            m <= segs@.len(),
            kept =~= sg.subrange(0, m as int),
            k <= m,
            forall|q: int| 0 <= q < sg.len() ==> 0 <= (#[trigger] sg[q]).0 <= sg[q].1 <= n,
            spans(r@) =~= kept.subrange(0, k as int).map_values(|p: (int, int)| trim_cr(text@, p)),
        decreases m - k,
    {
        let (a, b) = segs[k];
        assert(spans(segs@)[k as int] == sg[k as int]);
        let mut e = b;
        if a < b && text.get_char(b - 1) == '\r' {
            e = b - 1;
        }
        r.push((a, e));
        assert(kept.subrange(0, k + 1).map_values(|p: (int, int)| trim_cr(text@, p))
            =~= kept.subrange(0, k as int).map_values(|p: (int, int)| trim_cr(text@, p)).push(trim_cr(text@, kept[k as int])));
        k = k + 1;
    }
    assert(kept.subrange(0, m as int) =~= kept);
    r
}

impl Scheduler {
    /// Builds a linked task graph from text records, one per line, each of
    /// the form `identifier;description;duration;dependency;...`. Empty
    /// dependency fields are skipped. Every record is checked before any
    /// task is added.
    #[verifier::rlimit(100)]
    #[verifier::spinoff_prover]
    pub fn from_text(text: &str) -> (r: Result<Scheduler, ScheduleError>)
        ensures
            (r == Err::<Scheduler, ScheduleError>(ScheduleError::EmptyInput)) <==> line_spans(text@).len() == 0,
            (r is Err && r->Err_0 is InvalidRecord) <==> (line_spans(text@).len() > 0 && !records_ok(text@)),
            r is Ok <==> (line_spans(text@).len() > 0 && records_ok(text@) && names_distinct(text@)
                && deps_declared(text@)),
            match r {
                Ok(s) => {
                    &&& s.count() == line_spans(text@).len()
                    &&& forall|k: int| 0 <= k < s.count() ==> {
                        &&& (#[trigger] s.tasks@[k]).name@ == record_name(text@, k)
                        &&& s.tasks@[k].duration == record_duration(text@, k)
                        &&& s.tasks@[k].dep_names@.len() == record_deps(text@, k).len()
                        &&& forall|q: int| 0 <= q < record_deps(text@, k).len()
                            ==> #[trigger] s.tasks@[k].dep_names@[q]@ == record_deps(text@, k)[q]
                    }
                    &&& s.well_linked()
                    &&& s.links_counted()
                    &&& s.unscheduled()
                },
                Err(ScheduleError::DuplicateTask(n)) => {
                    &&& records_ok(text@)
                    &&& exists|i: int, j: int| 0 <= i < j < line_spans(text@).len()
                        && #[trigger] record_name(text@, i) == n@ && #[trigger] record_name(text@, j) == n@
                },
                Err(ScheduleError::MissingDependency(n)) => {
                    &&& records_ok(text@)
                    &&& names_distinct(text@)
                    &&& !declares_name(text@, n@)
                    &&& exists|k: int, q: int| 0 <= k < line_spans(text@).len() && 0 <= q < record_deps(text@, k).len()
                        && #[trigger] record_deps(text@, k)[q] == n@
                },
                Err(e) => e is EmptyInput || e is InvalidRecord,
            },
    {
        let ghost t = text@;
        let lines = line_ranges(text);
        let ghost ls = line_spans(t);
        proof {
            lemma_lines_bounds(t);
        }
        if lines.len() == 0 {
            return Err(ScheduleError::EmptyInput);
        }
        let mut fields: Vec<Vec<(usize, usize)>> = Vec::new();
        let mut durations: Vec<u16> = Vec::new();
        let mut i: usize = 0;
        while i < lines.len()
            invariant
                t == text@,
                ls == line_spans(t),
                spans(lines@) == ls,
                ls.len() > 0,
                i <= ls.len(),
                fields@.len() == i,
                durations@.len() == i,
                forall|k: int| 0 <= k < ls.len() ==> 0 <= (#[trigger] ls[k]).0 <= ls[k].1 <= t.len(),
                forall|k: int| 0 <= k < i ==> spans((#[trigger] fields@[k])@) == fields_of(t, k)
                    && record_ok(t, k) && durations@[k] == record_duration(t, k),
            decreases ls.len() - i,
        {
            let (from, to) = lines[i];
            assert(spans(lines@)[i as int] == ls[i as int]);
            let f = split_ranges(text, from, to, ';');
            proof {
                lemma_splits_bounds(t, from as int, to as int, ';');
                assert(spans(f@) == fields_of(t, i as int));
            }
            if f.len() < 3 {
                assert(!record_ok(t, i as int));
                return Err(ScheduleError::InvalidRecord);
            }
            let (a, b) = f[2];
            assert(spans(f@)[2] == fields_of(t, i as int)[2]);
            match parse_duration(text, a, b) {
                Some(d) => {
                    durations.push(d);
                },
                None => {
                    assert(!record_ok(t, i as int));
                    return Err(ScheduleError::InvalidRecord);
                },
            }
            fields.push(f);
            proof {
                assert forall|k: int| 0 <= k < i + 1 implies spans((#[trigger] fields@[k])@) == fields_of(t, k)
                    && record_ok(t, k) && durations@[k] == record_duration(t, k) by {}
            }
            i = i + 1;
        }
        proof {
            assert forall|k: int, q: int| 0 <= k < ls.len() && 0 <= q < fields@[k]@.len()
                implies 0 <= (#[trigger] fields@[k]@[q]).0 <= fields@[k]@[q].1 <= t.len() by {
                lemma_splits_bounds(t, ls[k].0, ls[k].1, ';');
                assert(spans(fields@[k]@)[q] == fields_of(t, k)[q]);
            }
        }
        let mut s = Scheduler::new();
        let mut i: usize = 0;
        while i < lines.len()
            invariant
                t == text@,
                ls == line_spans(t),
                spans(lines@) == ls,
                ls.len() > 0,
                i <= ls.len(),
                fields@.len() == ls.len(),
                durations@.len() == ls.len(),
                forall|k: int| 0 <= k < ls.len() ==> spans((#[trigger] fields@[k])@) == fields_of(t, k)
                    && record_ok(t, k) && durations@[k] == record_duration(t, k),
                forall|k: int, q: int| 0 <= k < ls.len() && 0 <= q < fields@[k]@.len()
                    ==> 0 <= (#[trigger] fields@[k]@[q]).0 <= fields@[k]@[q].1 <= t.len(),
                s.names_unique(),
                s.unlinked(),
                s.count() == i,
                forall|k: int| 0 <= k < i ==> {
                    &&& (#[trigger] s.tasks@[k]).name@ == record_name(t, k)
                    &&& s.tasks@[k].duration == record_duration(t, k)
                    &&& s.tasks@[k].dep_names@.len() == record_deps(t, k).len()
                    &&& forall|q: int| 0 <= q < record_deps(t, k).len()
                        ==> #[trigger] s.tasks@[k].dep_names@[q]@ == record_deps(t, k)[q]
                },
            decreases ls.len() - i,
        {
            let ghost fs = fields_of(t, i as int);
            assert(spans(fields@[i as int]@) == fs);
            assert(fields@[i as int]@.len() >= 3);
            let (a, b) = fields[i][0];
            assert(spans(fields@[i as int]@)[0] == fs[0]);
            let name = text.substring_char(a, b);
            let mut deps: Vec<&str> = Vec::new();
            let mut q: usize = 3;
            while q < fields[i].len()
                invariant
                    t == text@,
                    i < ls.len(),
                    fields@.len() == ls.len(),
                    spans(fields@[i as int]@) == fs,
                    3 <= q <= fs.len(),
                    forall|k: int, p: int| 0 <= k < ls.len() && 0 <= p < fields@[k]@.len()
                        ==> 0 <= (#[trigger] fields@[k]@[p]).0 <= fields@[k]@[p].1 <= t.len(),
                    deps@.len() == dep_fields(t, fs, q as int).len(),
                    forall|j: int| 0 <= j < deps@.len() ==> #[trigger] deps@[j]@ == dep_fields(t, fs, q as int)[j],
                decreases fs.len() - q,
            {
                let (c, e) = fields[i][q];
                assert(spans(fields@[i as int]@)[q as int] == fs[q as int]);
                if c < e {
                    deps.push(text.substring_char(c, e));
                }
                q = q + 1;
            }
            let ghost before = s;
            let dep_slice = deps.as_slice();
            assert(dep_slice@ == deps@);
            match s.try_add(name, durations[i], dep_slice) {
                Ok(next) => {
                    proof {
                        assert forall|x: int, y: int|
                            0 <= x < next.count() && 0 <= y < next.count() && x != y
                                implies #[trigger] next.tasks@[x].name@ != #[trigger] next.tasks@[y].name@ by {
                            if x == before.count() {
                                assert(next.tasks@[y] == before.tasks@[y]);
                            } else if y == before.count() {
                                assert(next.tasks@[x] == before.tasks@[x]);
                            } else {
                                assert(next.tasks@[x] == before.tasks@[x]);
                                assert(next.tasks@[y] == before.tasks@[y]);
                            }
                        }
                        assert forall|x: int| 0 <= x < next.count() implies {
                            &&& (#[trigger] next.tasks@[x]).deps@.len() == 0
                            &&& next.tasks@[x].dependants@.len() == 0
                            &&& next.tasks@[x].earlier_start is None
                            &&& next.tasks@[x].latest_start is None
                        } by {
                            if x < before.count() {
                                assert(next.tasks@[x] == before.tasks@[x]);
                            }
                        }
                        assert forall|k: int| 0 <= k < i + 1 implies {
                            &&& (#[trigger] next.tasks@[k]).name@ == record_name(t, k)
                            &&& next.tasks@[k].duration == record_duration(t, k)
                            &&& next.tasks@[k].dep_names@.len() == record_deps(t, k).len()
                            &&& forall|q: int| 0 <= q < record_deps(t, k).len()
                                ==> #[trigger] next.tasks@[k].dep_names@[q]@ == record_deps(t, k)[q]
                        } by {
                            if k < i {
                                assert(next.tasks@[k] == before.tasks@[k]);
                            } else {
                                assert forall|q: int| 0 <= q < record_deps(t, k).len()
                                    implies #[trigger] next.tasks@[k].dep_names@[q]@ == record_deps(t, k)[q] by {
                                    assert(deps@[q]@ == dep_fields(t, fs, fs.len() as int)[q]);
                                }
                            }
                        }
                    }
                    s = next;
                },
                Err(e) => {
                    proof {
                        let k = choose|k: int| 0 <= k < before.count() && #[trigger] before.tasks@[k].name@ == name@;
                        assert(record_name(t, k) == record_name(t, i as int));
                        assert forall|k: int| 0 <= k < ls.len() implies #[trigger] record_ok(t, k) by {
                            assert(spans(fields@[k]@) == fields_of(t, k));
                        }
                    }
                    return Err(e);
                },
            }
            i = i + 1;
        }
        proof {
            assert forall|k: int| 0 <= k < ls.len() implies #[trigger] record_ok(t, k) by {
                            assert(spans(fields@[k]@) == fields_of(t, k));
                        }
            assert forall|x: int, y: int| 0 <= x < y < ls.len()
                implies #[trigger] record_name(t, x) != #[trigger] record_name(t, y) by {
                assert(s.tasks@[x].name@ == record_name(t, x));
                assert(s.tasks@[y].name@ == record_name(t, y));
            }
        }
        let ghost built = s;
        match s.finalize() {
            Ok(s2) => {
                proof {
                    assert forall|k: int, q: int| 0 <= k < ls.len() && 0 <= q < record_deps(t, k).len()
                        implies declares_name(t, #[trigger] record_deps(t, k)[q]) by {
                        assert(built.tasks@[k].dep_names@[q]@ == record_deps(t, k)[q]);
                        assert(built.declares(built.tasks@[k].dep_names@[q]@));
                        let j = choose|j: int| 0 <= j < built.count() && #[trigger] built.tasks@[j].name@ == built.tasks@[k].dep_names@[q]@;
                        assert(record_name(t, j) == record_deps(t, k)[q]);
                    }
                    assert forall|k: int| 0 <= k < s2.count() implies {
                        &&& (#[trigger] s2.tasks@[k]).name@ == record_name(t, k)
                        &&& s2.tasks@[k].duration == record_duration(t, k)
                        &&& s2.tasks@[k].dep_names@.len() == record_deps(t, k).len()
                        &&& forall|q: int| 0 <= q < record_deps(t, k).len()
                            ==> #[trigger] s2.tasks@[k].dep_names@[q]@ == record_deps(t, k)[q]
                    } by {
                        assert(built.tasks@[k] == built.tasks@[k]);
                        assert forall|q: int| 0 <= q < record_deps(t, k).len()
                            implies #[trigger] s2.tasks@[k].dep_names@[q]@ == record_deps(t, k)[q] by {
                            assert(built.tasks@[k].dep_names@[q]@ == record_deps(t, k)[q]);
                        }
                    }
                }
                Ok(s2)
            },
            Err(e) => {
                proof {
                    let m = e->MissingDependency_0@;
                    let (k, q) = choose|k: int, q: int| 0 <= k < built.count() && 0 <= q < built.tasks@[k].dep_names@.len()
                        && #[trigger] built.tasks@[k].dep_names@[q]@ == m;
                    assert(record_deps(t, k)[q] == m);
                    assert forall|j: int| 0 <= j < ls.len() implies #[trigger] record_name(t, j) != m by {
                        assert(built.tasks@[j].name@ == record_name(t, j));
                    }
                    assert(!declares_name(t, m));
                }
                Err(e)
            },
        }
    }
}

} // verus!
