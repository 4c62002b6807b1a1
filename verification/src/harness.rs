//! The batch harness bookkeeping: per-file outcome categories, the running
//! counters, and the compact line-wrapped progress text.

use vstd::prelude::*;
use vstd::string::StringExecFns;

use crate::classify::ambiguity_check;
use crate::classify::forest_unambiguous;
use crate::forest::Forest;

verus! {

/// The outcome of one file's classification. Every processed file falls in
/// exactly one category.
#[derive(Clone, Copy, Debug, PartialEq, Eq, Structural)]
pub enum Category {
    /// Parsed fully, with a single derivation.
    Unambiguous,
    /// Parsed fully, with two or more derivations.
    Ambiguous,
    /// Only a prefix of the input parsed.
    Partial,
    /// No parse at all, a tokenization failure included.
    Failed,
}

/// What the parsing engine handed back for one file: a full parse with its
/// forest and root node, a parse of a proper prefix only, or no parse at all.
pub enum ParseOutcome {
    Success { forest: Forest, root: usize },
    TooShort,
    NoParse,
}

impl ParseOutcome {
    /// A successful parse carries a well-formed forest and a root inside it.
    pub open spec fn wf(self) -> bool {
        self matches ParseOutcome::Success { forest, root }
            ==> forest.wf() && (root as nat) < forest.nodes@.len()
    }
}

/// The category an outcome falls in: a full parse is unambiguous or ambiguous
/// as the classifier decides, a prefix parse is partial, no parse is failed.
pub open spec fn category_of(o: ParseOutcome) -> Category {
    match o {
        ParseOutcome::Success { forest, root } => if forest_unambiguous(forest, root as int) {
            Category::Unambiguous
        } else {
            Category::Ambiguous
        },
        ParseOutcome::TooShort => Category::Partial,
        ParseOutcome::NoParse => Category::Failed,
    }
}

/// Classify one file's outcome, running the ambiguity classifier on a full
/// parse.
pub fn classify_outcome(o: &ParseOutcome) -> (c: Category)
    requires
        o.wf(),
    ensures
        c == category_of(*o),
{
    match o {
        ParseOutcome::Success { forest, root } => match ambiguity_check(forest, *root) {
            Ok(_) => Category::Unambiguous,
            Err(_) => Category::Ambiguous,
        },
        ParseOutcome::TooShort => Category::Partial,
        ParseOutcome::NoParse => Category::Failed,
    }
}

/// The status character the compact progress stream prints for a category.
pub open spec fn status_char_of(c: Category) -> char {
    match c {
        Category::Unambiguous => '~',
        Category::Ambiguous => '!',
        Category::Partial => '.',
        Category::Failed => 'X',
    }
}

pub fn status_char(c: Category) -> (r: char)
    ensures
        r == status_char_of(c),
{
    match c {
        Category::Unambiguous => '~',
        Category::Ambiguous => '!',
        Category::Partial => '.',
        Category::Failed => 'X',
    }
}

/// How many entries of `s` fall in category `c`.
pub open spec fn count_cat(s: Seq<Category>, c: Category) -> nat
    decreases s.len(),
{
    if s.len() == 0 {
        0
    } else {
        count_cat(s.drop_last(), c) + if s.last() == c {
            1nat
        } else {
            0nat
        }
    }
}

/// Law: the four category counts of any run of outcomes sum to its length —
/// the categories are exhaustive and mutually exclusive.
pub proof fn lemma_category_completeness(s: Seq<Category>)
    ensures
        count_cat(s, Category::Unambiguous) + count_cat(s, Category::Ambiguous) + count_cat(
            s,
            Category::Partial,
        ) + count_cat(s, Category::Failed) == s.len(),
    decreases s.len(),
{
    if s.len() > 0 {
        lemma_category_completeness(s.drop_last());
    }
}

/// The running counters the batch harness reports at the end.
#[derive(Clone, Copy, Debug, PartialEq, Eq, Structural)]
pub struct Stats {
    pub total: usize,
    pub unambiguous: usize,
    pub ambiguous: usize,
    pub too_short: usize,
    pub no_parse: usize,
}

impl Stats {
    /// The counter for one category.
    pub open spec fn bucket(self, c: Category) -> usize {
        match c {
            Category::Unambiguous => self.unambiguous,
            Category::Ambiguous => self.ambiguous,
            Category::Partial => self.too_short,
            Category::Failed => self.no_parse,
        }
    }

    /// The four counters sum to the total of files processed.
    pub open spec fn wf(self) -> bool {
        self.total == self.unambiguous + self.ambiguous + self.too_short + self.no_parse
    }

    pub fn new() -> (s: Stats)
        ensures
            s.wf(),
            s.total == 0,
            forall|c: Category| #[trigger] s.bucket(c) == 0,
    {
        Stats { total: 0, unambiguous: 0, ambiguous: 0, too_short: 0, no_parse: 0 }
    }

    /// Count one more file under category `c`.
    pub fn record(&mut self, c: Category)
        requires
            old(self).wf(),
            old(self).total < usize::MAX,
        ensures
            final(self).wf(),
            final(self).total == old(self).total + 1,
            final(self).bucket(c) == old(self).bucket(c) + 1,
            forall|d: Category| d != c ==> #[trigger] final(self).bucket(d) == old(self).bucket(d),
    {
        match c {
            Category::Unambiguous => {
                self.unambiguous = self.unambiguous + 1;
            },
            Category::Ambiguous => {
                self.ambiguous = self.ambiguous + 1;
            },
            Category::Partial => {
                self.too_short = self.too_short + 1;
            },
            Category::Failed => {
                self.no_parse = self.no_parse + 1;
            },
        }
        self.total = self.total + 1;
    }

    /// Tally a whole run of categories: each counter holds exactly the number
    /// of outcomes in its category, and the total is the run's length.
    pub fn tally(cats: &Vec<Category>) -> (s: Stats)
        ensures
            s.wf(),
            s.total == cats@.len(),
            forall|c: Category| #[trigger] s.bucket(c) == count_cat(cats@, c),
    {
        let mut s = Stats::new();
        let mut i: usize = 0;
        while i < cats.len()
            invariant
                i <= cats@.len(),
                s.wf(),
                s.total == i,
                forall|c: Category| #[trigger] s.bucket(c) == count_cat(cats@.take(i as int), c),
            decreases cats@.len() - i,
        {
            let c = cats[i];
            s.record(c);
            proof {
                assert forall|d: Category| #[trigger] s.bucket(d) == count_cat(
                    cats@.take(i + 1),
                    d,
                ) by {
                    assert(cats@.take(i + 1).drop_last() =~= cats@.take(i as int));
                    assert(cats@.take(i + 1).last() == cats@[i as int]);
                }
            }
            i = i + 1;
        }
        proof {
            assert(cats@.take(cats@.len() as int) =~= cats@);
        }
        s
    }
}

/// The column width the compact progress stream wraps at.
pub const WRAP_COLUMNS: usize = 80;

/// The compact progress text for a run of categories: one status character
/// per file, a line break after every `WRAP_COLUMNS`th character.
pub open spec fn progress_text(s: Seq<Category>) -> Seq<char>
    decreases s.len(),
{
    if s.len() == 0 {
        Seq::empty()
    } else {
        progress_text(s.drop_last()) + seq![status_char_of(s.last())] + (
        if s.len() % (WRAP_COLUMNS as nat) == 0 {
            seq!['\n']
        } else {
            Seq::<char>::empty()
        })
    }
}

/// Render the compact progress stream for a run of categories.
pub fn render_progress(cats: &Vec<Category>) -> (out: String)
    ensures
        out@ == progress_text(cats@),
{
    proof {
        reveal_strlit("~");
        reveal_strlit("!");
        reveal_strlit(".");
        reveal_strlit("X");
        reveal_strlit("\n");
    }
    let mut out = String::new();
    let mut i: usize = 0;
    while i < cats.len()
        invariant
            i <= cats@.len(),
            out@ == progress_text(cats@.take(i as int)),
            "~"@ == seq!['~'],
            "!"@ == seq!['!'],
            "."@ == seq!['.'],
            "X"@ == seq!['X'],
            "\n"@ == seq!['\n'],
        decreases cats@.len() - i,
    {
        let mark: &str = match cats[i] {
            Category::Unambiguous => "~",
            Category::Ambiguous => "!",
            Category::Partial => ".",
            Category::Failed => "X",
        };
        out.append(mark);
        if (i + 1) % WRAP_COLUMNS == 0 {
            out.append("\n");
        }
        proof {
            assert(cats@.take(i + 1).drop_last() =~= cats@.take(i as int));
            assert(cats@.take(i + 1).last() == cats@[i as int]);
            assert(out@ == progress_text(cats@.take(i + 1)));
        }
        i = i + 1;
    }
    proof {
        assert(cats@.take(cats@.len() as int) =~= cats@);
    }
    out
}

} // verus!
