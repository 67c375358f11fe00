//! Placeholder management.
//!
//! Placeholders are synthetic single-word stand-ins for fixed character
//! sequences, such as `PLACEHOLDER_0` or `PLACEHOLDER_2`.  This is useful,
//! among other things, to treat abbreviations.
//!
//! A transcript may write "UN" where the narration says "United Nations".
//! The placeholder represents the longer "United Nations" as a single word:
//! single words do not break across subtitles, and this matters when the
//! time length of each subtitle is calculated.

use crate::strutil::{dec_rep, replaced, str_replace, u64_to_dec};
use vstd::prelude::*;
use vstd::string::StringExecFns;

verus! {

/// The synthetic single-word token standing in for the abbreviation
/// numbered `n`.
pub open spec fn placeholder_token(n: nat) -> Seq<char> {
    seq!['P', 'L', 'A', 'C', 'E', 'H', 'O', 'L', 'D', 'E', 'R', '_'] + dec_rep(n)
}

/// The entries derived from an abbreviation table: each abbreviation, in the
/// caller-supplied order, paired with a fresh placeholder token and with its
/// full form.  Entries with an empty abbreviation are dropped up front: an
/// empty pattern can never be substituted meaningfully.
pub open spec fn built_entries(table: Seq<(Seq<char>, Seq<char>)>, k: nat) -> Seq<
    (Seq<char>, Seq<char>, Seq<char>),
>
    decreases table.len(),
{
    if table.len() == 0 {
        Seq::empty()
    } else if table[0].0.len() == 0 {
        built_entries(table.drop_first(), k)
    } else {
        seq![(table[0].0, placeholder_token(k), table[0].1)] + built_entries(
            table.drop_first(),
            k + 1,
        )
    }
}

/// `text` with every abbreviation replaced by its placeholder token, entry
/// by entry in order.
pub open spec fn insert_all(
    entries: Seq<(Seq<char>, Seq<char>, Seq<char>)>,
    text: Seq<char>,
) -> Seq<char>
    decreases entries.len(),
{
    if entries.len() == 0 {
        text
    } else {
        insert_all(entries.drop_first(), replaced(text, entries[0].0, entries[0].1))
    }
}

/// `text` with every placeholder token replaced back by its abbreviation,
/// entry by entry in order.
pub open spec fn replace_all(
    entries: Seq<(Seq<char>, Seq<char>, Seq<char>)>,
    text: Seq<char>,
) -> Seq<char>
    decreases entries.len(),
{
    if entries.len() == 0 {
        text
    } else {
        replace_all(entries.drop_first(), replaced(text, entries[0].1, entries[0].0))
    }
}

/// `text` with every placeholder token replaced by the abbreviation's full
/// form, entry by entry in order.
pub open spec fn expand_all(
    entries: Seq<(Seq<char>, Seq<char>, Seq<char>)>,
    text: Seq<char>,
) -> Seq<char>
    decreases entries.len(),
{
    if entries.len() == 0 {
        text
    } else {
        expand_all(entries.drop_first(), replaced(text, entries[0].1, entries[0].2))
    }
}

/// The two mappings of the substitution layer, held as one ordered list of
/// entries `(abbreviation, placeholder, full form)`:
/// - abbreviation to placeholder (for example `UN` to `PLACEHOLDER_0`),
///   used to replace abbreviations before subtitles are prepared;
/// - placeholder to full form (for example `PLACEHOLDER_0` to
///   `United Nations`), used to expand placeholders before subtitle lengths
///   are calculated.
///
/// The list preserves the caller-supplied table order, so placeholder
/// numbering is deterministic.
pub struct Placeholders {
    entries: Vec<(String, String, String)>,
}

impl View for Placeholders {
    type V = Seq<(Seq<char>, Seq<char>, Seq<char>)>;

    closed spec fn view(&self) -> Seq<(Seq<char>, Seq<char>, Seq<char>)> {
        self.entries.deep_view()
    }
}

proof fn lemma_built_entries_numbered(table: Seq<(Seq<char>, Seq<char>)>, k: nat)
    ensures
        forall|i: int|
            0 <= i < built_entries(table, k).len() ==> (#[trigger] built_entries(table, k)[i]).0.len()
                > 0 && built_entries(table, k)[i].1 == placeholder_token((k + i) as nat),
    decreases table.len(),
{
    if table.len() > 0 {
        lemma_built_entries_numbered(table.drop_first(), k);
        lemma_built_entries_numbered(table.drop_first(), k + 1);
        if table[0].0.len() == 0 {
            let b = built_entries(table, k);
            let rest = built_entries(table.drop_first(), k);
            assert forall|i: int| 0 <= i < b.len() implies (#[trigger] b[i]).0.len() > 0 && b[i].1
                == placeholder_token((k + i) as nat) by {
                assert(b[i] == rest[i]);
                assert(rest[i].0.len() > 0 && rest[i].1 == placeholder_token((k + i) as nat));
            }
        } else {
            let b = built_entries(table, k);
            let rest = built_entries(table.drop_first(), k + 1);
            assert forall|i: int| 0 <= i < b.len() implies (#[trigger] b[i]).0.len() > 0 && b[i].1
                == placeholder_token((k + i) as nat) by {
                if i == 0 {
                    assert(b[0] == (table[0].0, placeholder_token(k), table[0].1));
                } else {
                    assert(b[i] == rest[i - 1]);
                    assert(rest[i - 1].0.len() > 0 && rest[i - 1].1 == placeholder_token(
                        ((k + 1) + (i - 1)) as nat,
                    ));
                }
            }
        }
    }
}

impl Placeholders {
    /// Every abbreviation is non-empty, and the entry at position `i` holds
    /// the synthetic placeholder token numbered `i`.
    pub open spec fn wf(&self) -> bool {
        forall|i: int|
            0 <= i < self@.len() ==> (#[trigger] self@[i]).0.len() > 0 && self@[i].1
                == placeholder_token(i as nat)
    }

    /// Prepares a Placeholders object from a table of
    /// `(abbreviation, full form)` pairs, numbering placeholders in the
    /// table's own order.
    pub fn new(abbr_table: &Vec<(String, String)>) -> (r: Placeholders)
        ensures
            r@ == built_entries(abbr_table.deep_view(), 0),
            r.wf(),
    {
        let ghost table = abbr_table.deep_view();
        let mut entries: Vec<(String, String, String)> = Vec::new();
        let mut counter: u64 = 0;
        let mut i: usize = 0;
        proof {
            assert(table.skip(0) =~= table);
        }
        while i < abbr_table.len()
            invariant
                i <= abbr_table.len(),
                table == abbr_table.deep_view(),
                counter as int == entries.len(),
                counter as int <= i as int,
                built_entries(table, 0) == entries.deep_view() + built_entries(
                    table.skip(i as int),
                    counter as nat,
                ),
            decreases abbr_table.len() - i,
        {
            let ghost suffix = table.skip(i as int);
            proof {
                assert(suffix[0] == table[i as int]);
                assert(suffix.drop_first() =~= table.skip(i + 1));
                assert(table[i as int] == (abbr_table@[i as int].0@, abbr_table@[i as int].1@));
            }
            let pair = &abbr_table[i];
            if !pair.0.as_str().is_empty() {
                let token = token_string(counter);
                let prev_dv = Ghost(entries.deep_view());
                entries.push((pair.0.clone(), token, pair.1.clone()));
                proof {
                    assert(entries.deep_view() =~= prev_dv@ + seq![
                        (table[i as int].0, placeholder_token(counter as nat), table[i as int].1),
                    ]);
                    assert(prev_dv@ + (seq![
                        (table[i as int].0, placeholder_token(counter as nat), table[i as int].1),
                    ] + built_entries(table.skip(i + 1), (counter + 1) as nat)) =~= (prev_dv@
                        + seq![
                        (table[i as int].0, placeholder_token(counter as nat), table[i as int].1),
                    ]) + built_entries(table.skip(i + 1), (counter + 1) as nat));
                }
                counter = counter + 1;
            }
            i = i + 1;
        }
        proof {
            assert(table.skip(abbr_table.len() as int).len() == 0);
            assert(entries.deep_view() + built_entries(
                table.skip(abbr_table.len() as int),
                counter as nat,
            ) =~= entries.deep_view());
            lemma_built_entries_numbered(table, 0);
        }
        Placeholders { entries }
    }

    /// Replaces abbreviations.
    ///
    /// Replaces abbreviations with corresponding placeholders.
    pub fn insert(&self, text: &str) -> (r: String)
        requires
            self.wf(),
        ensures
            r@ == insert_all(self@, text@),
    {
        let mut cur = String::from_str(text);
        let mut i: usize = 0;
        proof {
            assert(self@.skip(0) =~= self@);
        }
        while i < self.entries.len()
            invariant
                i <= self.entries.len(),
                self.wf(),
                self@ == self.entries.deep_view(),
                insert_all(self@, text@) == insert_all(self@.skip(i as int), cur@),
            decreases self.entries.len() - i,
        {
            let ghost suffix = self@.skip(i as int);
            proof {
                assert(suffix[0] == self@[i as int]);
                assert(suffix.drop_first() =~= self@.skip(i + 1));
                assert(self@[i as int] == (
                    self.entries@[i as int].0@,
                    self.entries@[i as int].1@,
                    self.entries@[i as int].2@,
                ));
            }
            let entry = &self.entries[i];
            cur = str_replace(cur.as_str(), entry.0.as_str(), entry.1.as_str());
            i = i + 1;
        }
        proof {
            assert(self@.skip(self.entries.len() as int).len() == 0);
        }
        cur
    }

    /// Replaces placeholders.
    ///
    /// Replaces placeholders with corresponding abbreviations.
    pub fn replace(&self, text: &str) -> (r: String)
        requires
            self.wf(),
        ensures
            r@ == replace_all(self@, text@),
    {
        let mut cur = String::from_str(text);
        let mut i: usize = 0;
        proof {
            assert(self@.skip(0) =~= self@);
        }
        while i < self.entries.len()
            invariant
                i <= self.entries.len(),
                self.wf(),
                self@ == self.entries.deep_view(),
                replace_all(self@, text@) == replace_all(self@.skip(i as int), cur@),
            decreases self.entries.len() - i,
        {
            let ghost suffix = self@.skip(i as int);
            proof {
                assert(suffix[0] == self@[i as int]);
                assert(suffix.drop_first() =~= self@.skip(i + 1));
                assert(self@[i as int] == (
                    self.entries@[i as int].0@,
                    self.entries@[i as int].1@,
                    self.entries@[i as int].2@,
                ));
            }
            let entry = &self.entries[i];
            cur = str_replace(cur.as_str(), entry.1.as_str(), entry.0.as_str());
            i = i + 1;
        }
        proof {
            assert(self@.skip(self.entries.len() as int).len() == 0);
        }
        cur
    }

    /// Expands placeholders.
    ///
    /// Expands placeholders with corresponding full forms of the related
    /// abbreviations.
    pub fn expand(&self, text: &str) -> (r: String)
        requires
            self.wf(),
        ensures
            r@ == expand_all(self@, text@),
    {
        let mut cur = String::from_str(text);
        let mut i: usize = 0;
        proof {
            assert(self@.skip(0) =~= self@);
        }
        while i < self.entries.len()
            invariant
                i <= self.entries.len(),
                self.wf(),
                self@ == self.entries.deep_view(),
                expand_all(self@, text@) == expand_all(self@.skip(i as int), cur@),
            decreases self.entries.len() - i,
        {
            let ghost suffix = self@.skip(i as int);
            proof {
                assert(suffix[0] == self@[i as int]);
                assert(suffix.drop_first() =~= self@.skip(i + 1));
                assert(self@[i as int] == (
                    self.entries@[i as int].0@,
                    self.entries@[i as int].1@,
                    self.entries@[i as int].2@,
                ));
            }
            let entry = &self.entries[i];
            cur = str_replace(cur.as_str(), entry.1.as_str(), entry.2.as_str());
            i = i + 1;
        }
        proof {
            assert(self@.skip(self.entries.len() as int).len() == 0);
        }
        cur
    }
}

fn token_string(n: u64) -> (r: String)
    ensures
        r@ == placeholder_token(n as nat),
{
    let mut s = String::from_str("PLACEHOLDER_");
    proof {
        reveal_strlit("PLACEHOLDER_");
        assert("PLACEHOLDER_"@ =~= seq![
            'P', 'L', 'A', 'C', 'E', 'H', 'O', 'L', 'D', 'E', 'R', '_',
        ]);
    }
    let d = u64_to_dec(n);
    s.append(d.as_str());
    s
}

/// With a single abbreviation entry, substituting the placeholder into a
/// text and then substituting it back restores the text exactly, provided
/// the placeholder's first character occurs nowhere in the text.
pub proof fn lemma_insert_replace_roundtrip(
    entries: Seq<(Seq<char>, Seq<char>, Seq<char>)>,
    text: Seq<char>,
)
    requires
        entries.len() == 1,
        entries[0].0.len() > 0,
        entries[0].1.len() > 0,
        !text.contains(entries[0].1[0]),
    ensures
        replace_all(entries, insert_all(entries, text)) == text,
{
    let inserted = replaced(text, entries[0].0, entries[0].1);
    let back = replaced(inserted, entries[0].1, entries[0].0);
    assert(entries.drop_first().len() == 0);
    assert(insert_all(entries.drop_first(), inserted) == inserted);
    assert(insert_all(entries, text) == inserted);
    assert(replace_all(entries.drop_first(), back) == back);
    assert(replace_all(entries, inserted) == back);
    crate::strutil::lemma_replaced_roundtrip(text, entries[0].0, entries[0].1);
}

} // verus!
