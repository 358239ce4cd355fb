use vstd::prelude::*;
use crate::scheduler::Scheduler;

verus! {

/// `a` and `b` agree on their first `k` characters.
pub open spec fn same_prefix(a: Seq<char>, b: Seq<char>, k: int) -> bool {
    &&& 0 <= k <= a.len()
    &&& k <= b.len()
    &&& forall|i: int| 0 <= i < k ==> #[trigger] a[i] == b[i]
}

/// `a` comes strictly before `b` in dictionary order of characters.
pub open spec fn name_before(a: Seq<char>, b: Seq<char>) -> bool {
    exists|k: int| #[trigger] same_prefix(a, b, k) && ({
        ||| k == a.len() && k < b.len()
        ||| k < a.len() && k < b.len() && (a[k] as int) < (b[k] as int)
    })
}

/// Whether `a` comes strictly before `b` in dictionary order of characters.
pub fn name_precedes(a: &str, b: &str) -> (r: bool)
    ensures
        r == name_before(a@, b@),
{
    let la = a.unicode_len();
    let lb = b.unicode_len();
    let mut k: usize = 0;
    while k < la && k < lb
        invariant
            la == a@.len(),
            lb == b@.len(),
            same_prefix(a@, b@, k as int),
        decreases la - k,
    {
        let ca = a.get_char(k);
        let cb = b.get_char(k);
        if ca != cb {
            let r = (ca as u32) < (cb as u32);
            proof {
                if !r {
                    assert forall|j: int| #[trigger] same_prefix(a@, b@, j) implies !({
                        ||| j == a@.len() && j < b@.len()
                        ||| j < a@.len() && j < b@.len() && (a@[j] as int) < (b@[j] as int)
                    }) by {
                        if j > k {
                            assert(a@[k as int] == b@[k as int]);
                        } else if j < k {
                            assert(a@[j] == b@[j]);
                        }
                    }
                } else {
                    assert(same_prefix(a@, b@, k as int));
                }
            }
            return r;
        }
        k = k + 1;
    }
    let r = k == la && k < lb;
    proof {
        if !r {
            assert forall|j: int| #[trigger] same_prefix(a@, b@, j) implies !({
                ||| j == a@.len() && j < b@.len()
                ||| j < a@.len() && j < b@.len() && (a@[j] as int) < (b@[j] as int)
            }) by {}
        } else {
            assert(same_prefix(a@, b@, k as int));
        }
    }
    r
}

proof fn lemma_first_difference(a: Seq<char>, b: Seq<char>, k: int)
    requires
        same_prefix(a, b, k),
        a != b,
    ensures
        name_before(a, b) || name_before(b, a),
    decreases a.len() - k,
{
    if k == a.len() || k == b.len() {
        if k == a.len() && k == b.len() {
            assert(a =~= b);
        } else if k == a.len() {
            assert(same_prefix(a, b, k));
        } else {
            assert(forall|i: int| 0 <= i < k ==> #[trigger] b[i] == a[i]);
            assert(same_prefix(b, a, k));
        }
    } else if a[k] != b[k] {
        if (a[k] as int) < (b[k] as int) {
            assert(same_prefix(a, b, k));
        } else {
            assert(forall|i: int| 0 <= i < k ==> #[trigger] b[i] == a[i]);
            assert(same_prefix(b, a, k));
        }
    } else {
        lemma_first_difference(a, b, k + 1);
    }
}

proof fn lemma_name_asymmetric(a: Seq<char>, b: Seq<char>)
    requires
        name_before(a, b),
    ensures
        !name_before(b, a),
{
    let k1 = choose|k: int| #[trigger] same_prefix(a, b, k) && ({
        ||| k == a.len() && k < b.len()
        ||| k < a.len() && k < b.len() && (a[k] as int) < (b[k] as int)
    });
    if name_before(b, a) {
        let k2 = choose|k: int| #[trigger] same_prefix(b, a, k) && ({
            ||| k == b.len() && k < a.len()
            ||| k < b.len() && k < a.len() && (b[k] as int) < (a[k] as int)
        });
        if k1 < k2 {
            assert(b[k1] == a[k1]);
        } else if k2 < k1 {
            assert(a[k2] == b[k2]);
        }
    }
}

proof fn lemma_name_transitive(a: Seq<char>, b: Seq<char>, c: Seq<char>)
    requires
        name_before(a, b),
        name_before(b, c),
    ensures
        name_before(a, c),
{
    let k1 = choose|k: int| #[trigger] same_prefix(a, b, k) && ({
        ||| k == a.len() && k < b.len()
        ||| k < a.len() && k < b.len() && (a[k] as int) < (b[k] as int)
    });
    let k2 = choose|k: int| #[trigger] same_prefix(b, c, k) && ({
        ||| k == b.len() && k < c.len()
        ||| k < b.len() && k < c.len() && (b[k] as int) < (c[k] as int)
    });
    let k = if k1 <= k2 { k1 } else { k2 };
    assert(same_prefix(a, c, k));
    if k1 < k2 {
        assert(b[k1] == c[k1]);
    } else if k2 < k1 {
        assert(a[k2] == b[k2]);
    }
}

/// The character of the decimal digit `d`.
pub open spec fn digit(d: int) -> char {
    seq!['0', '1', '2', '3', '4', '5', '6', '7', '8', '9'][d]
}

/// `n` written in base 10.
pub open spec fn decimal(n: nat) -> Seq<char>
    decreases n,
{
    if n < 10 {
        seq![digit(n as int)]
    } else {
        decimal(n / 10) + seq![digit((n % 10) as int)]
    }
}

pub open spec fn repeat_char(c: char, n: nat) -> Seq<char> {
    Seq::new(n, |i: int| c)
}

fn digit_str(d: u64) -> (r: &'static str)
    requires
        d < 10,
    ensures
        r@ == seq![digit(d as int)],
{
    proof {
        reveal_strlit("0");
        reveal_strlit("1");
        reveal_strlit("2");
        reveal_strlit("3");
        reveal_strlit("4");
        reveal_strlit("5");
        reveal_strlit("6");
        reveal_strlit("7");
        reveal_strlit("8");
        reveal_strlit("9");
    }
    let r = match d {
        0 => "0",
        1 => "1",
        2 => "2",
        3 => "3",
        4 => "4",
        5 => "5",
        6 => "6",
        7 => "7",
        8 => "8",
        _ => "9",
    };
    assert(r@ =~= seq![digit(d as int)]);
    r
}

/// Appends `n` written in base 10.
pub fn push_decimal(out: &mut String, n: u64)
    ensures
        final(out)@ == old(out)@ + decimal(n as nat),
    decreases n,
{
    if n >= 10 {
        push_decimal(out, n / 10);
    }
    out.append(digit_str(n % 10));
    assert(final(out)@ =~= old(out)@ + decimal(n as nat));
}

/// Appends `n` copies of the one-character string `c`.
fn push_repeat(out: &mut String, c: &str, n: u64)
    requires
        c@.len() == 1,
    ensures
        final(out)@ == old(out)@ + repeat_char(c@[0], n as nat),
{
    let mut k: u64 = 0;
    while k < n
        invariant
            c@.len() == 1,
            k <= n,
            out@ == old(out)@ + repeat_char(c@[0], k as nat),
        decreases n - k,
    {
        out.append(c);
        assert(old(out)@ + repeat_char(c@[0], (k + 1) as nat) =~= old(out)@ + repeat_char(c@[0], k as nat) + c@);
        k = k + 1;
    }
}

impl Scheduler {
    /// Task `i` is listed before task `j` in the report: by earliest start,
    /// then by duration, then by identifier.
    pub open spec fn listed_before(&self, i: int, j: int) -> bool {
        ||| self.start(i) < self.start(j)
        ||| self.start(i) == self.start(j) && self.dur(i) < self.dur(j)
        ||| self.start(i) == self.start(j) && self.dur(i) == self.dur(j)
            && name_before(self.tasks@[i].name@, self.tasks@[j].name@)
    }

    /// Whether task `i` is listed before task `j` in the report.
    pub fn display_before(&self, i: usize, j: usize) -> (r: bool)
        requires
            i < self.count(),
            j < self.count(),
            self.tasks@[i as int].earlier_start is Some,
            self.tasks@[j as int].earlier_start is Some,
        ensures
            r == self.listed_before(i as int, j as int),
    {
        let si: u64 = match self.tasks[i].earlier_start {
            Some(v) => v,
            None => 0,
        };
        let sj: u64 = match self.tasks[j].earlier_start {
            Some(v) => v,
            None => 0,
        };
        if si != sj {
            return si < sj;
        }
        let di = self.tasks[i].duration;
        let dj = self.tasks[j].duration;
        if di != dj {
            return di < dj;
        }
        name_precedes(self.tasks[i].name.as_str(), self.tasks[j].name.as_str())
    }

    proof fn lemma_listed_total(&self, i: int, j: int)
        requires
            self.names_unique(),
            0 <= i < self.count(),
            0 <= j < self.count(),
            i != j,
        ensures
            self.listed_before(i, j) || self.listed_before(j, i),
            !(self.listed_before(i, j) && self.listed_before(j, i)),
    {
        let a = self.tasks@[i].name@;
        let b = self.tasks@[j].name@;
        assert(a != b);
        lemma_first_difference(a, b, 0);
        if name_before(a, b) {
            lemma_name_asymmetric(a, b);
        }
        if name_before(b, a) {
            lemma_name_asymmetric(b, a);
        }
    }

    proof fn lemma_listed_transitive(&self, i: int, j: int, k: int)
        requires
            self.listed_before(i, j),
            self.listed_before(j, k),
        ensures
            self.listed_before(i, k),
    {
        let a = self.tasks@[i].name@;
        let b = self.tasks@[j].name@;
        let c = self.tasks@[k].name@;
        if name_before(a, b) && name_before(b, c) {
            lemma_name_transitive(a, b, c);
        }
    }

    /// The positions of all tasks in the order the report lists them.
    pub fn report_order(&self) -> (r: Vec<usize>)
        requires
            self.names_unique(),
            forall|i: int| 0 <= i < self.count() ==> (#[trigger] self.tasks@[i]).earlier_start is Some,
        ensures
            r@.len() == self.count(),
            forall|p: int| 0 <= p < r@.len() ==> (#[trigger] r@[p]) < self.count(),
            forall|i: int| 0 <= i < self.count() ==> #[trigger] r@.contains(i as usize),
            forall|p: int, q: int| 0 <= p < q < r@.len() ==> self.listed_before(r@[p] as int, r@[q] as int),
    {
        let n = self.tasks.len();
        let mut r: Vec<usize> = Vec::new();
        let mut i: usize = 0;
        while i < n
            invariant
                n == self.count(),
                i <= n,
                r@.len() == i,
                forall|p: int| 0 <= p < r@.len() ==> (#[trigger] r@[p]) < i,
                forall|x: int| 0 <= x < i ==> #[trigger] r@.contains(x as usize),
                forall|p: int, q: int| 0 <= p < q < r@.len() ==> self.listed_before(r@[p] as int, r@[q] as int),
                self.names_unique(),
                forall|x: int| 0 <= x < self.count() ==> (#[trigger] self.tasks@[x]).earlier_start is Some,
            decreases n - i,
        {
            let ghost old_r = r@;
            assert(forall|x: int| 0 <= x < i ==> #[trigger] old_r.contains(x as usize));
            let mut pos: usize = r.len();
            while pos > 0 && self.display_before(i, r[pos - 1])
                invariant
                    n == self.count(),
                    i < n,
                    r@ == old_r,
                    pos <= r@.len(),
                    forall|p: int| 0 <= p < r@.len() ==> (#[trigger] r@[p]) < i,
                    forall|q: int| pos <= q < r@.len() ==> self.listed_before(i as int, #[trigger] r@[q] as int),
                    forall|p: int, q: int| 0 <= p < q < r@.len() ==> self.listed_before(r@[p] as int, r@[q] as int),
                    forall|x: int| 0 <= x < self.count() ==> (#[trigger] self.tasks@[x]).earlier_start is Some,
                decreases pos,
            {
                pos = pos - 1;
            }
            proof {
                if pos > 0 {
                    self.lemma_listed_total(i as int, r@[pos - 1] as int);
                }
            }
            r.insert(pos, i);
            proof {
                assert(r@ =~= old_r.subrange(0, pos as int).push(i).add(old_r.subrange(pos as int, old_r.len() as int)));
                assert forall|p: int, q: int| 0 <= p < q < r@.len()
                    implies self.listed_before(r@[p] as int, r@[q] as int) by {
                    if q == pos as int {
                        if p < pos - 1 {
                            self.lemma_listed_transitive(r@[p] as int, old_r[pos - 1] as int, i as int);
                        }
                    } else if p == pos as int {
                        if q > pos + 1 {
                            self.lemma_listed_transitive(i as int, old_r[pos as int] as int, r@[q] as int);
                        }
                    } else {
                        let pp = if p < pos { p } else { p - 1 };
                        let qq = if q < pos { q } else { q - 1 };
                        assert(r@[p] == old_r[pp] && r@[q] == old_r[qq]);
                    }
                }
                assert forall|x: int| 0 <= x <= i implies #[trigger] r@.contains(x as usize) by {
                    if x == i {
                        assert(r@[pos as int] == x as usize);
                    } else {
                        assert(old_r.contains(x as usize));
                        let w = choose|w: int| 0 <= w < old_r.len() && old_r[w] == x as usize;
                        let left = old_r.subrange(0, pos as int).push(i);
                        let right = old_r.subrange(pos as int, old_r.len() as int);
                        if w < pos {
                            assert(left[w] == old_r[w]);
                            assert(r@[w] == left[w]);
                        } else {
                            assert(right[w - pos] == old_r[w]);
                            assert(r@[w + 1] == right[w + 1 - left.len()]);
                        }
                    }
                }
            }
            i = i + 1;
        }
        r
    }

    /// `o` lists every task exactly once, in report order.
    pub open spec fn is_report_order(&self, o: Seq<usize>) -> bool {
        &&& o.len() == self.count()
        &&& forall|i: int| 0 <= i < self.count() ==> #[trigger] o.contains(i as usize)
        &&& forall|p: int, q: int| 0 <= p < q < o.len() ==> self.listed_before(o[p] as int, o[q] as int)
    }

    /// The line telling when task `i` must begin.
    pub open spec fn begin_line(&self, i: int) -> Seq<char> {
        self.tasks@[i].name@ + " must begin "@ + if self.start(i) == self.late(i) {
            "at t="@ + decimal(self.start(i) as nat)
        } else {
            "between t="@ + decimal(self.start(i) as nat) + " and t="@ + decimal(self.late(i) as nat)
        } + "\n"@
    }

    /// The line giving task `i`'s slack and its bar: `start` spaces, then
    /// `duration` signs `=`.
    pub open spec fn bar_line(&self, i: int) -> Seq<char> {
        self.tasks@[i].name@ + "\t("@ + decimal((self.late(i) - self.start(i)) as nat) + ")\t"@
            + repeat_char(' ', self.start(i) as nat) + repeat_char('=', self.dur(i) as nat) + "\n"@
    }

    pub open spec fn begin_lines(&self, o: Seq<usize>, k: int) -> Seq<char>
        decreases k,
    {
        if k <= 0 {
            Seq::empty()
        } else {
            self.begin_lines(o, k - 1) + self.begin_line(o[k - 1] as int)
        }
    }

    pub open spec fn bar_lines(&self, o: Seq<usize>, k: int) -> Seq<char>
        decreases k,
    {
        if k <= 0 {
            Seq::empty()
        } else {
            self.bar_lines(o, k - 1) + self.bar_line(o[k - 1] as int)
        }
    }

    /// The report over the order `o`: the total duration, a line per task
    /// on when it must begin, a blank line, then a line per task with its
    /// slack and bar.
    pub open spec fn report_text(&self, o: Seq<usize>) -> Seq<char> {
        "Total duration of construction: "@ + decimal(self.end->0 as nat) + " weeks\n\n"@
            + self.begin_lines(o, o.len() as int) + "\n"@ + self.bar_lines(o, o.len() as int)
    }

    /// The finished schedule as text, in report order.
    pub fn report(&self) -> (r: String)
        requires
            self.scheduled(),
            self.names_unique(),
            forall|i: int| 0 <= i < self.count() ==> self.start(i) <= self.late(i),
        ensures
            exists|o: Seq<usize>| self.is_report_order(o) && r@ == self.report_text(o),
    {
        proof {
            reveal_strlit(" ");
            reveal_strlit("=");
        }
        let order = self.report_order();
        let mut out = String::new();
        out.append("Total duration of construction: ");
        let end = match self.end {
            Some(e) => e,
            None => 0,
        };
        push_decimal(&mut out, end);
        out.append(" weeks\n\n");
        let ghost head = out@;
        let mut k: usize = 0;
        while k < order.len()
            invariant
                self.scheduled(),
                order@.len() == self.count(),
                forall|p: int| 0 <= p < order@.len() ==> (#[trigger] order@[p]) < self.count(),
                k <= order@.len(),
                out@ == head + self.begin_lines(order@, k as int),
            decreases order@.len() - k,
        {
            let i = order[k];
            assert(self.tasks@[i as int].earlier_start is Some);
            let st = match self.tasks[i].earlier_start {
                Some(v) => v,
                None => 0,
            };
            let la = match self.tasks[i].latest_start {
                Some(v) => v,
                None => 0,
            };
            out.append(self.tasks[i].name.as_str());
            out.append(" must begin ");
            if st == la {
                out.append("at t=");
                push_decimal(&mut out, st);
            } else {
                out.append("between t=");
                push_decimal(&mut out, st);
                out.append(" and t=");
                push_decimal(&mut out, la);
            }
            out.append("\n");
            assert(out@ =~= head + self.begin_lines(order@, k as int + 1));
            k = k + 1;
        }
        out.append("\n");
        let ghost mid = out@;
        let mut k: usize = 0;
        while k < order.len()
            invariant
                self.scheduled(),
                forall|i: int| 0 <= i < self.count() ==> self.start(i) <= self.late(i),
                order@.len() == self.count(),
                forall|p: int| 0 <= p < order@.len() ==> (#[trigger] order@[p]) < self.count(),
                k <= order@.len(),
                out@ == mid + self.bar_lines(order@, k as int),
            decreases order@.len() - k,
        {
            let i = order[k];
            assert(self.tasks@[i as int].earlier_start is Some);
            let st = match self.tasks[i].earlier_start {
                Some(v) => v,
                None => 0,
            };
            let la = match self.tasks[i].latest_start {
                Some(v) => v,
                None => 0,
            };
            out.append(self.tasks[i].name.as_str());
            proof {
                reveal_strlit(" ");
                reveal_strlit("=");
            }
            out.append("\t(");
            push_decimal(&mut out, la - st);
            out.append(")\t");
            push_repeat(&mut out, " ", st);
            push_repeat(&mut out, "=", self.tasks[i].duration as u64);
            out.append("\n");
            assert(out@ =~= mid + self.bar_lines(order@, k as int + 1));
            k = k + 1;
        }
        assert(out@ =~= self.report_text(order@));
        out
    }
}

} // verus!
