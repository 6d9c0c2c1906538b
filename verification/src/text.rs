use vstd::prelude::*;

verus! {

/// The character that marks a shortened label.
pub open spec fn ellipsis() -> Seq<char> {
    seq!['\u{2026}']
}

/// The first `k` characters of `text` followed by the ellipsis.
pub open spec fn with_ellipsis(text: Seq<char>, k: int) -> Seq<char> {
    text.take(k) + ellipsis()
}

/// The midpoint that the binary search tries next, rounded up.
pub open spec fn mid(lo: int, hi: int) -> int {
    lo + (hi - lo + 1) / 2
}

/// The prefix length that a binary search over `lo..=hi` settles on, when
/// it moves up to `mid` whenever the first `mid` characters plus the
/// ellipsis fit (by `fits`) and below `mid` otherwise.
pub open spec fn search(fits: spec_fn(Seq<char>) -> bool, text: Seq<char>, lo: int, hi: int) -> int
    decreases hi - lo,
{
    if lo >= hi {
        lo
    } else if fits(with_ellipsis(text, mid(lo, hi))) {
        search(fits, text, mid(lo, hi), hi)
    } else {
        search(fits, text, lo, mid(lo, hi) - 1)
    }
}

/// `text` if it fits; otherwise the prefix found by binary search followed
/// by an ellipsis (the ellipsis alone when the prefix is empty), or nothing
/// when even the ellipsis does not fit.
pub open spec fn truncated(fits: spec_fn(Seq<char>) -> bool, text: Seq<char>) -> Seq<char> {
    if fits(text) {
        text
    } else if !fits(ellipsis()) {
        seq![]
    } else {
        with_ellipsis(text, search(fits, text, 0, text.len() as int))
    }
}

/// The stage of shortening a label.
#[derive(Clone, Copy, Debug, PartialEq, Eq, Structural)]
pub enum Phase {
    /// Asking whether the whole text fits.
    Whole,
    /// Asking whether the ellipsis alone fits.
    Ellipsis,
    /// Searching for the longest prefix that fits with the ellipsis.
    Search,
}

/// The text that is measured next in the given stage.
pub open spec fn query(text: Seq<char>, phase: Phase, lo: int, hi: int) -> Seq<char> {
    match phase {
        Phase::Whole => text,
        Phase::Ellipsis => ellipsis(),
        Phase::Search => with_ellipsis(text, mid(lo, hi)),
    }
}

/// The stage, search bounds and, once finished, the label after the
/// answer `fits` to the current query.
pub open spec fn advance(text: Seq<char>, phase: Phase, lo: int, hi: int, fits: bool) -> (
    Phase,
    int,
    int,
    Option<Seq<char>>,
) {
    match phase {
        Phase::Whole => if fits {
            (Phase::Whole, lo, hi, Some(text))
        } else {
            (Phase::Ellipsis, lo, hi, None)
        },
        Phase::Ellipsis => if !fits {
            (Phase::Ellipsis, lo, hi, Some(seq![]))
        } else if text.len() == 0 {
            (Phase::Search, 0, 0, Some(with_ellipsis(text, 0)))
        } else {
            (Phase::Search, 0, text.len() as int, None)
        },
        Phase::Search => {
            let (l, h) = if fits {
                (mid(lo, hi), hi)
            } else {
                (lo, mid(lo, hi) - 1)
            };
            if l >= h {
                (Phase::Search, l, h, Some(with_ellipsis(text, l)))
            } else {
                (Phase::Search, l, h, None)
            }
        },
    }
}

/// What the shortening yields from a stage on when every answer is given
/// by `fits`.
pub open spec fn pending(
    fits: spec_fn(Seq<char>) -> bool,
    text: Seq<char>,
    phase: Phase,
    lo: int,
    hi: int,
) -> Seq<char> {
    match phase {
        Phase::Whole => truncated(fits, text),
        Phase::Ellipsis => if !fits(ellipsis()) {
            seq![]
        } else {
            with_ellipsis(text, search(fits, text, 0, text.len() as int))
        },
        Phase::Search => with_ellipsis(text, search(fits, text, lo, hi)),
    }
}

/// How much work is left: stages still to go, then the width of the
/// search range.
pub open spec fn remaining(text: Seq<char>, phase: Phase, lo: int, hi: int) -> int {
    match phase {
        Phase::Whole => 2 * text.len() + 4int,
        Phase::Ellipsis => text.len() + 2int,
        Phase::Search => hi - lo,
    }
}

/// The shortening of one label to the width available for it: `text` if
/// it fits, otherwise a shortened version ending in an ellipsis, or an
/// empty string if even the ellipsis does not fit. The caller measures each
/// text that the shortening asks about and hands back whether it fits.
pub struct Truncation {
    text: String,
    len: usize,
    phase: Phase,
    lo: usize,
    hi: usize,
}

/// What to do after an answer: measure another text, or use the label.
pub enum TruncateStep {
    Measure(String),
    Done(String),
}

impl Truncation {
    /// The character count is that of the text, and the search range lies
    /// within it.
    #[verifier::type_invariant]
    spec fn well_formed(self) -> bool {
        &&& self.len == self.text@.len()
        &&& self.lo <= self.hi <= self.len
    }

    /// The text being shortened.
    pub closed spec fn source(self) -> Seq<char> {
        self.text@
    }

    /// The stage of the shortening.
    pub closed spec fn stage(self) -> Phase {
        self.phase
    }

    /// The low end of the search range.
    pub closed spec fn low(self) -> int {
        self.lo as int
    }

    /// The high end of the search range.
    pub closed spec fn high(self) -> int {
        self.hi as int
    }

    /// The search range lies within the text.
    pub open spec fn in_range(self) -> bool {
        0 <= self.low() <= self.high() <= self.source().len()
    }

    /// The shortening is waiting for the answer to `current_query`: during
    /// the search, the range still holds more than one prefix length.
    pub open spec fn awaiting(self) -> bool {
        self.stage() == Phase::Search ==> self.low() < self.high()
    }

    pub open spec fn current_query(self) -> Seq<char> {
        query(self.source(), self.stage(), self.low(), self.high())
    }

    /// Starts shortening `text`; the first text to measure is `text` itself.
    pub fn start(text: &str) -> (r: (Truncation, String))
        ensures
            r.0.in_range(),
            r.0.awaiting(),
            r.0.source() == text@,
            r.0.stage() == Phase::Whole,
            r.0.low() == 0,
            r.0.high() == text@.len(),
            r.1@ == r.0.current_query(),
    {
        let len = text.unicode_len();
        (Truncation { text: text.to_owned(), len, phase: Phase::Whole, lo: 0, hi: len }, text.to_owned())
    }

    /// Takes the answer to the last query: whether it fits.
    pub fn answer(&mut self, fits: bool) -> (step: TruncateStep)
        requires
            old(self).awaiting(),
        ensures
            final(self).source() == old(self).source(),
            final(self).in_range(),
            ({
                let a = advance(old(self).source(), old(self).stage(), old(self).low(), old(self).high(), fits);
                &&& final(self).stage() == a.0
                &&& final(self).low() == a.1
                &&& final(self).high() == a.2
                &&& match step {
                    TruncateStep::Done(label) => a.3 == Some(label@),
                    TruncateStep::Measure(q) => {
                        &&& a.3.is_none()
                        &&& final(self).awaiting()
                        &&& q@ == final(self).current_query()
                        &&& remaining(
                            final(self).source(),
                            final(self).stage(),
                            final(self).low(),
                            final(self).high(),
                        ) < remaining(old(self).source(), old(self).stage(), old(self).low(), old(self).high())
                    },
                }
            }),
    {
        proof {
            use_type_invariant(&*self);
        }
        let ellipsis_str = "\u{2026}";
        proof {
            reveal_strlit("\u{2026}");
        }
        assert(ellipsis_str@ == ellipsis());
        let step = match self.phase {
            Phase::Whole => {
                if fits {
                    TruncateStep::Done(self.text.clone())
                } else {
                    self.phase = Phase::Ellipsis;
                    TruncateStep::Measure(ellipsis_str.to_owned())
                }
            },
            Phase::Ellipsis => {
                if !fits {
                    TruncateStep::Done(String::new())
                } else {
                    self.phase = Phase::Search;
                    self.lo = 0;
                    self.hi = self.len;
                    if self.len == 0 {
                        assert(self.text@.take(0) =~= Seq::<char>::empty());
                        TruncateStep::Done(ellipsis_str.to_owned())
                    } else {
                        TruncateStep::Measure(self.candidate())
                    }
                }
            },
            Phase::Search => {
                let m = self.lo + ((self.hi - self.lo) / 2 + (self.hi - self.lo) % 2);
                if fits {
                    self.lo = m;
                } else {
                    self.hi = m - 1;
                }
                if self.lo >= self.hi {
                    let mut label = String::from_str(self.text.as_str().substring_char(0, self.lo));
                    label.append(ellipsis_str);
                    assert(self.text@.subrange(0, self.lo as int) == self.text@.take(self.lo as int));
                    TruncateStep::Done(label)
                } else {
                    TruncateStep::Measure(self.candidate())
                }
            },
        };
        proof {
            use_type_invariant(&*self);
        }
        step
    }

    /// The prefix at the middle of the search range plus the ellipsis.
    fn candidate(&self) -> (q: String)
        requires
            self.len == self.text@.len(),
            self.lo < self.hi <= self.len,
        ensures
            q@ == with_ellipsis(self.text@, mid(self.lo as int, self.hi as int)),
    {
        let ellipsis_str = "\u{2026}";
        proof {
            reveal_strlit("\u{2026}");
        }
        let m = self.lo + ((self.hi - self.lo) / 2 + (self.hi - self.lo) % 2);
        let mut q = String::from_str(self.text.as_str().substring_char(0, m));
        q.append(ellipsis_str);
        assert(self.text@.subrange(0, m as int) == self.text@.take(m as int));
        q
    }
}

/// The shortening computes `truncated`: it starts with `truncated(fits,
/// text)` pending, and when each answer is what `fits` says of the query,
/// an answer either finishes with the pending label or leaves the same
/// label pending.
pub proof fn shortening_follows_the_measure(
    fits: spec_fn(Seq<char>) -> bool,
    text: Seq<char>,
    phase: Phase,
    lo: int,
    hi: int,
)
    requires
        0 <= lo <= hi <= text.len(),
        phase == Phase::Search ==> lo < hi,
    ensures
        pending(fits, text, Phase::Whole, 0, text.len() as int) == truncated(fits, text),
        ({
            let a = advance(text, phase, lo, hi, fits(query(text, phase, lo, hi)));
            match a.3 {
                Some(label) => label == pending(fits, text, phase, lo, hi),
                None => pending(fits, text, a.0, a.1, a.2) == pending(fits, text, phase, lo, hi),
            }
        }),
{
    if phase == Phase::Search {
        let m = mid(lo, hi);
        assert(search(fits, text, lo, hi) == if fits(with_ellipsis(text, m)) {
            search(fits, text, m, hi)
        } else {
            search(fits, text, lo, m - 1)
        });
        if fits(with_ellipsis(text, m)) {
            if m >= hi {
                assert(search(fits, text, m, hi) == m);
            }
        } else if lo >= m - 1 {
            assert(search(fits, text, lo, m - 1) == lo);
        }
    } else if phase == Phase::Ellipsis && text.len() == 0 {
        assert(search(fits, text, 0, 0) == 0);
    }
}

proof fn lemma_search_fits(fits: spec_fn(Seq<char>) -> bool, text: Seq<char>, lo: int, hi: int)
    requires
        0 <= lo <= hi,
        lo == 0 || fits(with_ellipsis(text, lo)),
    ensures
        search(fits, text, lo, hi) == 0 || fits(with_ellipsis(text, search(fits, text, lo, hi))),
        lo <= search(fits, text, lo, hi) <= hi,
    decreases hi - lo,
{
    if lo < hi {
        if fits(with_ellipsis(text, mid(lo, hi))) {
            lemma_search_fits(fits, text, mid(lo, hi), hi);
        } else {
            lemma_search_fits(fits, text, lo, mid(lo, hi) - 1);
        }
    }
}

/// A shortened label always fits: it is either empty or a text that the
/// measure accepts.
pub proof fn truncated_label_fits(fits: spec_fn(Seq<char>) -> bool, text: Seq<char>)
    ensures
        truncated(fits, text).len() == 0 || fits(truncated(fits, text)),
{
    if !fits(text) && fits(ellipsis()) {
        lemma_search_fits(fits, text, 0, text.len() as int);
        assert(with_ellipsis(text, 0) =~= ellipsis());
    }
}

/// A label that fits is kept; one that does not is dropped only when the
/// ellipsis alone does not fit, and otherwise keeps a prefix of its text
/// and ends in the ellipsis.
pub proof fn truncated_label_shape(fits: spec_fn(Seq<char>) -> bool, text: Seq<char>)
    ensures
        fits(text) ==> truncated(fits, text) == text,
        !fits(text) && !fits(ellipsis()) ==> truncated(fits, text) == Seq::<char>::empty(),
        !fits(text) && fits(ellipsis()) ==> exists|k: int|
            0 <= k <= text.len() && truncated(fits, text) == #[trigger] with_ellipsis(text, k),
{
    if !fits(text) && fits(ellipsis()) {
        lemma_search_fits(fits, text, 0, text.len() as int);
        let k = search(fits, text, 0, text.len() as int);
        assert(truncated(fits, text) == with_ellipsis(text, k));
    }
}

/// Whether a longer prefix (plus the ellipsis) fitting always means that a
/// shorter one fits too, as it does for a measure of rendered width.
pub open spec fn monotone_on(fits: spec_fn(Seq<char>) -> bool, text: Seq<char>) -> bool {
    forall|k1: int, k2: int|
        0 <= k1 <= k2 <= text.len() && fits(#[trigger] with_ellipsis(text, k2)) ==> fits(
            #[trigger] with_ellipsis(text, k1),
        )
}

proof fn lemma_search_longest(fits: spec_fn(Seq<char>) -> bool, text: Seq<char>, lo: int, hi: int)
    requires
        monotone_on(fits, text),
        0 <= lo <= hi <= text.len(),
        forall|k: int| hi < k <= text.len() ==> !fits(#[trigger] with_ellipsis(text, k)),
    ensures
        forall|k: int|
            search(fits, text, lo, hi) < k <= text.len() ==> !fits(#[trigger] with_ellipsis(text, k)),
    decreases hi - lo,
{
    if lo < hi {
        let m = mid(lo, hi);
        if fits(with_ellipsis(text, m)) {
            lemma_search_longest(fits, text, m, hi);
        } else {
            assert forall|k: int| m - 1 < k <= text.len() implies !fits(
                #[trigger] with_ellipsis(text, k),
            ) by {
                if k > m && k <= hi && fits(with_ellipsis(text, k)) {
                    assert(fits(with_ellipsis(text, m)));
                }
            }
            lemma_search_longest(fits, text, lo, m - 1);
        }
    }
}

/// With a monotone measure, a label that does not fit keeps the longest
/// prefix that fits together with the ellipsis.
pub proof fn truncation_keeps_longest_prefix(fits: spec_fn(Seq<char>) -> bool, text: Seq<char>)
    requires
        monotone_on(fits, text),
        !fits(text),
        fits(ellipsis()),
    ensures
        exists|k: int|
            {
                &&& 0 <= k <= text.len()
                &&& truncated(fits, text) == #[trigger] with_ellipsis(text, k)
                &&& fits(with_ellipsis(text, k))
                &&& forall|k2: int| k < k2 <= text.len() ==> !fits(#[trigger] with_ellipsis(text, k2))
            },
{
    let n = text.len() as int;
    lemma_search_fits(fits, text, 0, n);
    lemma_search_longest(fits, text, 0, n);
    assert(with_ellipsis(text, 0) =~= ellipsis());
    let k = search(fits, text, 0, n);
    assert(truncated(fits, text) == with_ellipsis(text, k));
}

} // verus!
