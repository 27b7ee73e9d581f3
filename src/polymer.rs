use vstd::prelude::*;
use vstd::arithmetic::power2::{lemma_pow2_pos, lemma_pow2_unfold, pow2};
use crate::text::{chars_of, split_at_sep, split_pieces, split_ranges};

verus! {

/// How often each character occurs.
#[derive(Debug, Clone)]
pub struct Counts {
    entries: Vec<(char, u64)>,
}

impl Counts {
    /// One entry per character counted.
    pub closed spec fn items(&self) -> Seq<(char, u64)> {
        self.entries@
    }

    /// No character has two entries, and every entry counts at least once, so
    /// the entries are exactly the characters counted.
    pub open spec fn wf(&self) -> bool {
        &&& forall|i: int, j: int| 0 <= i < j < self.items().len() ==> #[trigger] self.items()[i].0 != #[trigger] self.items()[j].0
        &&& forall|i: int| 0 <= i < self.items().len() ==> #[trigger] self.items()[i].1 > 0
    }

    /// How often `c` has been counted.
    pub open spec fn count_of(&self, c: char) -> nat {
        if exists|i: int| 0 <= i < self.items().len() && self.items()[i].0 == c {
            self.items()[choose|i: int| 0 <= i < self.items().len() && self.items()[i].0 == c].1 as nat
        } else {
            0
        }
    }

    /// A character has an entry exactly when it has been counted, so two
    /// well-formed counts that agree on every character hold the same entries,
    /// up to order.
    pub proof fn lemma_entries_are_counted(&self, c: char)
        requires
            self.wf(),
        ensures
            (exists|i: int| 0 <= i < self.items().len() && self.items()[i].0 == c) <==> self.count_of(c) > 0,
    {
        if exists|i: int| 0 <= i < self.items().len() && self.items()[i].0 == c {
            let i = choose|i: int| 0 <= i < self.items().len() && self.items()[i].0 == c;
            self.lemma_count_at(i);
        }
    }

    proof fn lemma_count_at(&self, i: int)
        requires
            self.wf(),
            0 <= i < self.items().len(),
        ensures
            self.count_of(self.items()[i].0) == self.items()[i].1,
    {
        let p = self.items()[i].0;
        let j = choose|j: int| 0 <= j < self.items().len() && self.items()[j].0 == p;
        if j < i {
            assert(self.items()[j].0 != self.items()[i].0);
        } else if j > i {
            assert(self.items()[i].0 != self.items()[j].0);
        }
    }

    /// A single character counted once.
    pub fn single(c: char) -> (r: Counts)
        ensures
            r.wf(),
            forall|d: char| #[trigger] r.count_of(d) == if d == c {
                1nat
            } else {
                0nat
            },
    {
        let r = Counts { entries: vec![(c, 1)] };
        proof {
            assert forall|d: char| #[trigger] r.count_of(d) == if d == c {
                1nat
            } else {
                0nat
            } by {
                if d == c {
                    r.lemma_count_at(0);
                }
            }
        }
        r
    }

    /// Counts `c` `n` more times.
    fn add_to(&mut self, c: char, n: u64)
        requires
            old(self).wf(),
            n > 0,
            old(self).count_of(c) + n <= u64::MAX,
        ensures
            final(self).wf(),
            forall|d: char| #[trigger] final(self).count_of(d) == old(self).count_of(d) + if d == c {
                n as nat
            } else {
                0nat
            },
    {
        let mut i: usize = 0;
        while i < self.entries.len()
            invariant
                i <= self.entries@.len(),
                *self == *old(self),
                old(self).wf(),
                old(self).count_of(c) + n <= u64::MAX,
                forall|j: int| 0 <= j < i ==> self.entries@[j].0 != c,
            decreases self.entries@.len() - i,
        {
            if self.entries[i].0 == c {
                proof {
                    old(self).lemma_count_at(i as int);
                }
                let m = self.entries[i].1;
                self.entries.set(i, (c, m + n));
                proof {
                    assert forall|d: char| #[trigger] self.count_of(d) == old(self).count_of(d) + if d == c {
                        n as nat
                    } else {
                        0nat
                    } by {
                        if d == c {
                            self.lemma_count_at(i as int);
                        } else if exists|j: int| 0 <= j < old(self).items().len() && old(self).items()[j].0 == d {
                            let j = choose|j: int| 0 <= j < old(self).items().len() && old(self).items()[j].0 == d;
                            old(self).lemma_count_at(j);
                            self.lemma_count_at(j);
                        } else {
                            assert(!exists|j: int| 0 <= j < self.items().len() && self.items()[j].0 == d) by {
                                if exists|j: int| 0 <= j < self.items().len() && self.items()[j].0 == d {
                                    let j = choose|j: int| 0 <= j < self.items().len() && self.items()[j].0 == d;
                                    assert(old(self).items()[j].0 == d);
                                }
                            }
                        }
                    }
                }
                return;
            }
            i = i + 1;
        }
        self.entries.push((c, n));
        proof {
            let len = old(self).items().len();
            assert forall|d: char| #[trigger] self.count_of(d) == old(self).count_of(d) + if d == c {
                n as nat
            } else {
                0nat
            } by {
                if d == c {
                    self.lemma_count_at(len as int);
                } else if exists|j: int| 0 <= j < old(self).items().len() && old(self).items()[j].0 == d {
                    let j = choose|j: int| 0 <= j < old(self).items().len() && old(self).items()[j].0 == d;
                    old(self).lemma_count_at(j);
                    self.lemma_count_at(j);
                } else {
                    assert(!exists|j: int| 0 <= j < self.items().len() && self.items()[j].0 == d) by {
                        if exists|j: int| 0 <= j < self.items().len() && self.items()[j].0 == d {
                            let j = choose|j: int| 0 <= j < self.items().len() && self.items()[j].0 == d;
                            assert(j < len);
                            assert(old(self).items()[j].0 == d);
                        }
                    }
                }
            }
        }
    }

    /// Adds the counts of `w` to these.
    pub fn plus(&mut self, w: &Counts)
        requires
            old(self).wf(),
            w.wf(),
            forall|c: char| #[trigger] old(self).count_of(c) + w.count_of(c) <= u64::MAX,
        ensures
            final(self).wf(),
            forall|c: char| #[trigger] final(self).count_of(c) == old(self).count_of(c) + w.count_of(c),
    {
        let mut i: usize = 0;
        while i < w.entries.len()
            invariant
                i <= w.entries@.len(),
                self.wf(),
                w.wf(),
                forall|c: char| #[trigger] old(self).count_of(c) + w.count_of(c) <= u64::MAX,
                forall|c: char| #[trigger] self.count_of(c) == old(self).count_of(c) + if exists|j: int|
                    0 <= j < i && w.items()[j].0 == c {
                    w.count_of(c)
                } else {
                    0nat
                },
            decreases w.entries@.len() - i,
        {
            let (c, n) = w.entries[i];
            proof {
                w.lemma_count_at(i as int);
                assert(!exists|j: int| 0 <= j < i && w.items()[j].0 == c) by {
                    if exists|j: int| 0 <= j < i && w.items()[j].0 == c {
                        let j = choose|j: int| 0 <= j < i && w.items()[j].0 == c;
                        assert(w.items()[j].0 != w.items()[i as int].0);
                    }
                }
                assert(self.count_of(c) == old(self).count_of(c));
            }
            self.add_to(c, n);
            assert forall|d: char| #[trigger] self.count_of(d) == old(self).count_of(d) + if exists|j: int|
                0 <= j < i + 1 && w.items()[j].0 == d {
                w.count_of(d)
            } else {
                0nat
            } by {
                if d == c {
                    assert(w.items()[i as int].0 == d);
                } else if exists|j: int| 0 <= j < i + 1 && w.items()[j].0 == d {
                    let j = choose|j: int| 0 <= j < i + 1 && w.items()[j].0 == d;
                    assert(j < i);
                }
            }
            i = i + 1;
        }
        assert forall|c: char| #[trigger] self.count_of(c) == old(self).count_of(c) + w.count_of(c) by {
            if !exists|j: int| 0 <= j < i && w.items()[j].0 == c {
                assert(!exists|j: int| 0 <= j < w.items().len() && w.items()[j].0 == c);
            }
        }
    }
}

/// The insertion rule for the pair `(c, d)`, if there is one.
pub open spec fn rule_for(rules: Seq<((char, char), char)>, c: char, d: char) -> Option<char> {
    if exists|i: int| 0 <= i < rules.len() && rules[i].0 == (c, d) {
        Some(rules[choose|i: int| 0 <= i < rules.len() && rules[i].0 == (c, d)].1)
    } else {
        None
    }
}

/// How often `ch` occurs in what the pair `(c, d)` grows into after `n` steps
/// of insertion, leaving out the final `d`: each step puts the rule's
/// character between every pair that has a rule.
pub open spec fn grown_count(rules: Seq<((char, char), char)>, c: char, d: char, n: nat, ch: char) -> nat
    decreases n,
{
    if n == 0 {
        if c == ch {
            1
        } else {
            0
        }
    } else {
        match rule_for(rules, c, d) {
            Some(e) => grown_count(rules, c, e, (n - 1) as nat, ch) + grown_count(rules, e, d, (n - 1) as nat, ch),
            None => if c == ch {
                1
            } else {
                0
            },
        }
    }
}

/// A pair grows into at most `2^n` characters after `n` steps.
pub proof fn lemma_grown_bound(rules: Seq<((char, char), char)>, c: char, d: char, n: nat, ch: char)
    ensures
        grown_count(rules, c, d, n, ch) <= pow2(n),
    decreases n,
{
    lemma_pow2_pos(n);
    if n > 0 {
        lemma_pow2_unfold(n);
        if let Some(e) = rule_for(rules, c, d) {
            lemma_grown_bound(rules, c, e, (n - 1) as nat, ch);
            lemma_grown_bound(rules, e, d, (n - 1) as nat, ch);
        }
    }
}

/// The template and its pair insertion rules.
#[derive(Debug, Clone)]
pub struct Polymer {
    template: Vec<char>,
    rules: Vec<((char, char), char)>,
}

impl Polymer {
    pub closed spec fn spec_template(&self) -> Seq<char> {
        self.template@
    }

    pub closed spec fn spec_rules(&self) -> Seq<((char, char), char)> {
        self.rules@
    }

    /// No pair has two rules.
    pub open spec fn wf(&self) -> bool {
        forall|i: int, j: int|
            0 <= i < j < self.spec_rules().len() ==> #[trigger] self.spec_rules()[i].0 != #[trigger] self.spec_rules()[j].0
    }
}

/// The rule that the line `s` writes as `AB -> C`.
pub open spec fn rule_line(s: Seq<char>) -> Option<((char, char), char)> {
    let v = split_pieces(s, seq![' ', '-', '>', ' ']);
    if v.len() == 2 && v[0].len() == 2 && v[1].len() == 1 {
        Some(((v[0][0], v[0][1]), v[1][0]))
    } else {
        None
    }
}

/// The rule for `(c, d)` that the lines `2..k` leave in force: the last that
/// names the pair.
pub open spec fn rule_upto(ls: Seq<Seq<char>>, k: int, c: char, d: char) -> Option<char>
    decreases k,
{
    if k <= 2 {
        None
    } else {
        match rule_line(ls[k - 1]) {
            Some(r) => if r.0 == (c, d) {
                Some(r.1)
            } else {
                rule_upto(ls, k - 1, c, d)
            },
            None => rule_upto(ls, k - 1, c, d),
        }
    }
}

/// Every line after the template and the line below it is a rule.
pub open spec fn polymer_ok(ls: Seq<Seq<char>>) -> bool {
    ls.len() > 0 && forall|k: int| 2 <= k < ls.len() ==> (#[trigger] rule_line(ls[k])).is_some()
}

/// The number of times `ch` occurs in what the pairs of `t` before position `m`
/// grow into after `n` steps, each without its last character.
pub open spec fn pairs_count(rules: Seq<((char, char), char)>, t: Seq<char>, n: nat, ch: char, m: int) -> nat
    decreases m,
{
    if m <= 0 || m >= t.len() {
        0
    } else {
        pairs_count(rules, t, n, ch, m - 1) + grown_count(rules, t[m - 1], t[m], n, ch)
    }
}

/// How often `ch` occurs in the polymer after `n` steps of insertion.
pub open spec fn polymer_count(rules: Seq<((char, char), char)>, t: Seq<char>, n: nat, ch: char) -> nat {
    pairs_count(rules, t, n, ch, t.len() - 1) + if t.len() > 0 && t.last() == ch {
        1nat
    } else {
        0nat
    }
}

/// Sets the rule for `key` to `val`, replacing one that was there.
fn set_rule(rules: &mut Vec<((char, char), char)>, key: (char, char), val: char)
    requires
        forall|i: int, j: int| 0 <= i < j < old(rules)@.len() ==> #[trigger] old(rules)@[i].0 != #[trigger] old(rules)@[j].0,
    ensures
        forall|i: int, j: int| 0 <= i < j < final(rules)@.len() ==> #[trigger] final(rules)@[i].0 != #[trigger] final(rules)@[j].0,
        forall|c: char, d: char| #[trigger] rule_for(final(rules)@, c, d) == if (c, d) == key {
            Some(val)
        } else {
            rule_for(old(rules)@, c, d)
        },
{
    let mut i: usize = 0;
    while i < rules.len()
        invariant
            i <= rules@.len(),
            *rules == *old(rules),
            forall|a: int, b: int| 0 <= a < b < old(rules)@.len() ==> #[trigger] old(rules)@[a].0 != #[trigger] old(rules)@[b].0,
            forall|j: int| 0 <= j < i ==> rules@[j].0 != key,
        decreases rules@.len() - i,
    {
        if rules[i].0.0 == key.0 && rules[i].0.1 == key.1 {
            rules.set(i, (key, val));
            proof {
                assert forall|c: char, d: char| #[trigger] rule_for(rules@, c, d) == if (c, d) == key {
                    Some(val)
                } else {
                    rule_for(old(rules)@, c, d)
                } by {
                    if (c, d) == key {
                        assert(rules@[i as int].0 == (c, d));
                        let j = choose|j: int| 0 <= j < rules@.len() && rules@[j].0 == (c, d);
                        if j != i {
                            assert(old(rules)@[j].0 == rules@[j].0);
                            assert(old(rules)@[i as int].0 == key);
                            if j < i {
                                assert(old(rules)@[j].0 != old(rules)@[i as int].0);
                            } else {
                                assert(old(rules)@[i as int].0 != old(rules)@[j].0);
                            }
                        }
                    } else {
                        assert((exists|j: int| 0 <= j < rules@.len() && rules@[j].0 == (c, d)) == (exists|j: int|
                            0 <= j < old(rules)@.len() && old(rules)@[j].0 == (c, d))) by {
                            if exists|j: int| 0 <= j < rules@.len() && rules@[j].0 == (c, d) {
                                let j = choose|j: int| 0 <= j < rules@.len() && rules@[j].0 == (c, d);
                                assert(old(rules)@[j].0 == (c, d));
                            }
                            if exists|j: int| 0 <= j < old(rules)@.len() && old(rules)@[j].0 == (c, d) {
                                let j = choose|j: int| 0 <= j < old(rules)@.len() && old(rules)@[j].0 == (c, d);
                                assert(rules@[j].0 == (c, d));
                            }
                        }
                        if exists|j: int| 0 <= j < rules@.len() && rules@[j].0 == (c, d) {
                            let j1 = choose|j: int| 0 <= j < rules@.len() && rules@[j].0 == (c, d);
                            let j2 = choose|j: int| 0 <= j < old(rules)@.len() && old(rules)@[j].0 == (c, d);
                            if j1 < j2 {
                                assert(old(rules)@[j1].0 != old(rules)@[j2].0);
                            } else if j1 > j2 {
                                assert(old(rules)@[j2].0 != old(rules)@[j1].0);
                            }
                        }
                    }
                }
                assert forall|a: int, b: int| 0 <= a < b < rules@.len() implies #[trigger] rules@[a].0 != #[trigger] rules@[b].0 by {
                    assert(old(rules)@[a].0 == rules@[a].0 && old(rules)@[b].0 == rules@[b].0);
                }
            }
            return;
        }
        i = i + 1;
    }
    let n = rules.len();
    rules.push((key, val));
    proof {
        assert forall|c: char, d: char| #[trigger] rule_for(rules@, c, d) == if (c, d) == key {
            Some(val)
        } else {
            rule_for(old(rules)@, c, d)
        } by {
            if (c, d) == key {
                assert(rules@[n as int].0 == key);
                let j = choose|j: int| 0 <= j < rules@.len() && rules@[j].0 == (c, d);
                if j < n {
                    assert(rules@[j].0 != key);
                }
            } else {
                if exists|j: int| 0 <= j < rules@.len() && rules@[j].0 == (c, d) {
                    let j1 = choose|j: int| 0 <= j < rules@.len() && rules@[j].0 == (c, d);
                    assert(j1 < n);
                    assert(old(rules)@[j1].0 == (c, d));
                    let j2 = choose|j: int| 0 <= j < old(rules)@.len() && old(rules)@[j].0 == (c, d);
                    if j1 < j2 {
                        assert(old(rules)@[j1].0 != old(rules)@[j2].0);
                    } else if j1 > j2 {
                        assert(old(rules)@[j2].0 != old(rules)@[j1].0);
                    }
                } else {
                    assert(!exists|j: int| 0 <= j < old(rules)@.len() && old(rules)@[j].0 == (c, d)) by {
                        if exists|j: int| 0 <= j < old(rules)@.len() && old(rules)@[j].0 == (c, d) {
                            let j = choose|j: int| 0 <= j < old(rules)@.len() && old(rules)@[j].0 == (c, d);
                            assert(rules@[j].0 == (c, d));
                        }
                    }
                }
            }
        }
        assert forall|a: int, b: int| 0 <= a < b < rules@.len() implies #[trigger] rules@[a].0 != #[trigger] rules@[b].0 by {
            if b == n {
                assert(rules@[a].0 == old(rules)@[a].0);
            } else {
                assert(old(rules)@[a].0 == rules@[a].0 && old(rules)@[b].0 == rules@[b].0);
            }
        }
    }
}

/// A copy of `c`.
fn copy_counts(c: &Counts) -> (r: Counts)
    ensures
        r.items() == c.items(),
{
    let mut entries: Vec<(char, u64)> = Vec::new();
    let mut i: usize = 0;
    while i < c.entries.len()
        invariant
            i <= c.entries@.len(),
            entries@ == c.entries@.subrange(0, i as int),
        decreases c.entries@.len() - i,
    {
        entries.push(c.entries[i]);
        assert(entries@ =~= c.entries@.subrange(0, i + 1));
        i = i + 1;
    }
    assert(c.entries@.subrange(0, i as int) == c.entries@);
    Counts { entries }
}

impl Polymer {
    /// Reads the template from the first line and one rule `AB -> C` from each
    /// line after the second; a later rule for a pair replaces an earlier one.
    /// Fails with `error no template` where there are no lines, and with
    /// `bad rule` where a line after the second is not a rule.
    pub fn parse_polymer(lines: &Vec<String>) -> (r: Result<Polymer, &'static str>)
        ensures
            match r {
                Ok(p) => {
                    let ls = lines@.map_values(|l: String| l@);
                    &&& polymer_ok(ls)
                    &&& p.wf()
                    &&& p.spec_template() == ls[0]
                    &&& forall|c: char, d: char| #[trigger] rule_for(p.spec_rules(), c, d) == rule_upto(ls, ls.len() as int, c, d)
                },
                Err(e) => {
                    let ls = lines@.map_values(|l: String| l@);
                    &&& !polymer_ok(ls)
                    &&& ls.len() == 0 ==> e == "error no template"
                    &&& ls.len() > 0 ==> e == "bad rule"
                },
            },
    {
        let ghost ls = lines@.map_values(|l: String| l@);
        if lines.len() == 0 {
            return Err("error no template");
        }
        let template = chars_of(lines[0].as_str());
        let mut rules: Vec<((char, char), char)> = Vec::new();
        let mut k: usize = 2;
        proof {
            reveal_strlit(" -> ");
            assert(" -> "@ =~= seq![' ', '-', '>', ' ']);
        }
        if lines.len() < 2 {
            k = lines.len();
        }
        while k < lines.len()
            invariant
                2 <= k <= lines@.len() || k == lines@.len() < 2,
                ls == lines@.map_values(|l: String| l@),
                ls.len() == lines@.len(),
                " -> "@ == seq![' ', '-', '>', ' '],
                forall|i: int, j: int| 0 <= i < j < rules@.len() ==> #[trigger] rules@[i].0 != #[trigger] rules@[j].0,
                forall|i: int| 2 <= i < k ==> (#[trigger] rule_line(ls[i])).is_some(),
                forall|c: char, d: char| #[trigger] rule_for(rules@, c, d) == rule_upto(ls, k as int, c, d),
            decreases lines@.len() - k,
        {
            let line = lines[k].as_str();
            assert(ls[k as int] == line@);
            let v = split_at_sep(line, " -> ");
            let ghost rr = split_ranges(line@, seq![' ', '-', '>', ' '], 0, 0);
            let ghost pieces = split_pieces(line@, seq![' ', '-', '>', ' ']);
            if v.len() != 2 || v[0].1 - v[0].0 != 2 || v[1].1 - v[1].0 != 1 {
                proof {
                    if v@.len() == 2 {
                        assert(pieces[0] == line@.subrange(rr[0].0, rr[0].1));
                        assert(pieces[1] == line@.subrange(rr[1].0, rr[1].1));
                    }
                }
                assert(rule_line(ls[k as int]).is_none());
                return Err("bad rule");
            }
            assert(pieces[0] == line@.subrange(rr[0].0, rr[0].1));
            assert(pieces[1] == line@.subrange(rr[1].0, rr[1].1));
            let a = line.get_char(v[0].0);
            let b = line.get_char(v[0].0 + 1);
            let e = line.get_char(v[1].0);
            assert(rule_line(ls[k as int]) == Some(((a, b), e)));
            set_rule(&mut rules, (a, b), e);
            k = k + 1;
        }
        let p = Polymer { template, rules };
        assert(lines@[0]@ == ls[0]);
        Ok(p)
    }

    /// The index of the rule for `(c, d)`, if there is one.
    fn find_rule(&self, c: char, d: char) -> (r: Option<usize>)
        requires
            self.wf(),
        ensures
            match r {
                Some(k) => k < self.spec_rules().len() && self.spec_rules()[k as int].0 == (c, d) && rule_for(
                    self.spec_rules(),
                    c,
                    d,
                ) == Some(self.spec_rules()[k as int].1),
                None => rule_for(self.spec_rules(), c, d).is_none(),
            },
    {
        let mut k: usize = 0;
        while k < self.rules.len()
            invariant
                k <= self.rules@.len(),
                self.wf(),
                forall|j: int| 0 <= j < k ==> self.rules@[j].0 != (c, d),
            decreases self.rules@.len() - k,
        {
            if self.rules[k].0.0 == c && self.rules[k].0.1 == d {
                proof {
                    assert(self.spec_rules()[k as int].0 == (c, d));
                    let j = choose|j: int| 0 <= j < self.spec_rules().len() && self.spec_rules()[j].0 == (c, d);
                    if j > k {
                        assert(self.spec_rules()[k as int].0 != self.spec_rules()[j].0);
                    }
                }
                return Some(k);
            }
            k = k + 1;
        }
        None
    }

    /// What the pair `(c, d)` grows into after `step` steps, read from `table`
    /// where the pair has a rule.
    fn pair_counts(&self, table: &Vec<Counts>, c: char, d: char, Ghost(step): Ghost<nat>) -> (r: Counts)
        requires
            self.wf(),
            table@.len() == self.spec_rules().len(),
            forall|j: int|
                0 <= j < table@.len() ==> (#[trigger] table@[j]).wf() && forall|ch: char| table@[j].count_of(ch)
                    == grown_count(self.spec_rules(), self.spec_rules()[j].0.0, self.spec_rules()[j].0.1, step, ch),
        ensures
            r.wf(),
            forall|ch: char| #[trigger] r.count_of(ch) == grown_count(self.spec_rules(), c, d, step, ch),
    {
        match self.find_rule(c, d) {
            Some(j) => {
                let r = copy_counts(&table[j]);
                assert(table@[j as int].wf());
                assert(self.spec_rules()[j as int].0 == (c, d));
                assert forall|ch: char| #[trigger] r.count_of(ch) == grown_count(self.spec_rules(), c, d, step, ch) by {
                    assert(table@[j as int].count_of(ch) == grown_count(
                        self.spec_rules(),
                        self.spec_rules()[j as int].0.0,
                        self.spec_rules()[j as int].0.1,
                        step,
                        ch,
                    ));
                }
                r
            },
            None => Counts::single(c),
        }
    }

    /// For each rule's pair, in rule order, the characters that it grows into
    /// after `n` steps, leaving out its last character.
    pub fn counts_table(&self, n: usize) -> (r: Vec<Counts>)
        requires
            self.wf(),
            n <= 62,
        ensures
            r@.len() == self.spec_rules().len(),
            forall|k: int|
                0 <= k < r@.len() ==> (#[trigger] r@[k]).wf() && forall|ch: char| r@[k].count_of(ch) == grown_count(
                    self.spec_rules(),
                    self.spec_rules()[k].0.0,
                    self.spec_rules()[k].0.1,
                    n as nat,
                    ch,
                ),
    {
        let ghost rules = self.spec_rules();
        let mut table: Vec<Counts> = Vec::new();
        let mut k: usize = 0;
        while k < self.rules.len()
            invariant
                k <= self.rules@.len(),
                rules == self.spec_rules(),
                table@.len() == k,
                forall|j: int|
                    0 <= j < k ==> (#[trigger] table@[j]).wf() && forall|ch: char| table@[j].count_of(ch) == grown_count(
                        rules,
                        rules[j].0.0,
                        rules[j].0.1,
                        0,
                        ch,
                    ),
            decreases self.rules@.len() - k,
        {
            let ((c, _), _) = self.rules[k];
            table.push(Counts::single(c));
            k = k + 1;
        }
        let mut step: usize = 0;
        while step < n
            invariant
                step <= n <= 62,
                self.wf(),
                rules == self.spec_rules(),
                table@.len() == rules.len(),
                forall|j: int|
                    0 <= j < table@.len() ==> (#[trigger] table@[j]).wf() && forall|ch: char| table@[j].count_of(ch)
                        == grown_count(rules, rules[j].0.0, rules[j].0.1, step as nat, ch),
            decreases n - step,
        {
            let mut next: Vec<Counts> = Vec::new();
            let mut k: usize = 0;
            while k < self.rules.len()
                invariant
                    k <= self.rules@.len(),
                    step < n <= 62,
                    self.wf(),
                    rules == self.spec_rules(),
                    table@.len() == rules.len(),
                    forall|j: int|
                        0 <= j < table@.len() ==> (#[trigger] table@[j]).wf() && forall|ch: char| table@[j].count_of(ch)
                            == grown_count(rules, rules[j].0.0, rules[j].0.1, step as nat, ch),
                    next@.len() == k,
                    forall|j: int|
                        0 <= j < k ==> (#[trigger] next@[j]).wf() && forall|ch: char| next@[j].count_of(ch) == grown_count(
                            rules,
                            rules[j].0.0,
                            rules[j].0.1,
                            (step + 1) as nat,
                            ch,
                        ),
                decreases self.rules@.len() - k,
            {
                let ((c, d), e) = self.rules[k];
                proof {
                    let j = choose|j: int| 0 <= j < rules.len() && rules[j].0 == (c, d);
                    if j != k {
                        if j < k {
                            assert(rules[j].0 != rules[k as int].0);
                        } else {
                            assert(rules[k as int].0 != rules[j].0);
                        }
                    }
                    assert(rule_for(rules, c, d) == Some(e));
                }
                let mut ce = self.pair_counts(&table, c, e, Ghost(step as nat));
                let ed = self.pair_counts(&table, e, d, Ghost(step as nat));
                proof {
                    lemma_pow2_unfold((step + 1) as nat);
                    vstd::arithmetic::power2::lemma_pow2_strictly_increases((step + 1) as nat, 64);
                    vstd::arithmetic::power2::lemma2_to64_rest();
                    assert forall|ch: char| #[trigger] ce.count_of(ch) + ed.count_of(ch) <= u64::MAX by {
                        lemma_grown_bound(rules, c, e, step as nat, ch);
                        lemma_grown_bound(rules, e, d, step as nat, ch);
                    }
                }
                ce.plus(&ed);
                next.push(ce);
                k = k + 1;
            }
            table = next;
            step = step + 1;
        }
        table
    }

    /// How often each character occurs in the polymer after `n` steps.
    pub fn dynamic_count(&self, n: usize) -> (r: Counts)
        requires
            self.wf(),
            self.spec_template().len() > 0,
            n <= 62,
            (self.spec_template().len() + 1) * pow2(n as nat) <= u64::MAX,
        ensures
            r.wf(),
            forall|ch: char| #[trigger] r.count_of(ch) == polymer_count(self.spec_rules(), self.spec_template(), n as nat, ch),
    {
        let ghost rules = self.spec_rules();
        let ghost t = self.spec_template();
        let table = self.counts_table(n);
        let mut counts = Counts { entries: Vec::new() };
        let len = self.template.len();
        let mut k: usize = 1;
        proof {
            lemma_pow2_pos(n as nat);
        }
        while k < len
            invariant
                1 <= k <= len,
                len == t.len(),
                self.wf(),
                rules == self.spec_rules(),
                t == self.spec_template(),
                table@.len() == rules.len(),
                (t.len() + 1) * pow2(n as nat) <= u64::MAX,
                pow2(n as nat) > 0,
                forall|j: int|
                    0 <= j < table@.len() ==> (#[trigger] table@[j]).wf() && forall|ch: char| table@[j].count_of(ch)
                        == grown_count(rules, rules[j].0.0, rules[j].0.1, n as nat, ch),
                counts.wf(),
                forall|ch: char| #[trigger] counts.count_of(ch) == pairs_count(rules, t, n as nat, ch, k - 1),
                forall|ch: char| #[trigger] pairs_count(rules, t, n as nat, ch, k - 1) <= (k - 1) * pow2(n as nat),
            decreases len - k,
        {
            let c = self.template[k - 1];
            let d = self.template[k];
            let part = self.pair_counts(&table, c, d, Ghost(n as nat));
            proof {
                assert forall|ch: char| #[trigger] counts.count_of(ch) + part.count_of(ch) <= u64::MAX by {
                    lemma_grown_bound(rules, c, d, n as nat, ch);
                    assert((k - 1) * pow2(n as nat) + pow2(n as nat) == k * pow2(n as nat)) by (nonlinear_arith);
                    assert(k * pow2(n as nat) <= (t.len() + 1) * pow2(n as nat)) by (nonlinear_arith)
                        requires
                            k <= t.len() + 1,
                            pow2(n as nat) > 0,
                    ;
                }
            }
            counts.plus(&part);
            proof {
                assert forall|ch: char| #[trigger] pairs_count(rules, t, n as nat, ch, k as int) <= k * pow2(n as nat) by {
                    assert(pairs_count(rules, t, n as nat, ch, k - 1) <= (k - 1) * pow2(n as nat));
                    lemma_grown_bound(rules, c, d, n as nat, ch);
                    assert((k - 1) * pow2(n as nat) + pow2(n as nat) == k * pow2(n as nat)) by (nonlinear_arith);
                }
            }
            k = k + 1;
        }
        let last = Counts::single(self.template[len - 1]);
        proof {
            assert forall|ch: char| #[trigger] counts.count_of(ch) + last.count_of(ch) <= u64::MAX by {
                assert((len - 1) * pow2(n as nat) + 1 <= (t.len() + 1) * pow2(n as nat)) by (nonlinear_arith)
                    requires
                        pow2(n as nat) > 0,
                        len == t.len(),
                        len >= 1,
                ;
            }
        }
        counts.plus(&last);
        counts
    }
}

impl Counts {
    /// How often `c` has been counted.
    pub fn get(&self, c: char) -> (r: u64)
        requires
            self.wf(),
        ensures
            r == self.count_of(c),
    {
        let mut i: usize = 0;
        while i < self.entries.len()
            invariant
                i <= self.entries@.len(),
                self.wf(),
                forall|j: int| 0 <= j < i ==> self.entries@[j].0 != c,
            decreases self.entries@.len() - i,
        {
            if self.entries[i].0 == c {
                proof {
                    self.lemma_count_at(i as int);
                }
                return self.entries[i].1;
            }
            i = i + 1;
        }
        0
    }

    /// How many characters have been counted.
    pub fn kinds(&self) -> (r: usize)
        ensures
            r == self.items().len(),
    {
        self.entries.len()
    }

    /// The largest count less the smallest; `None` where nothing is counted.
    pub fn spread(&self) -> (r: Option<u64>)
        ensures
            match r {
                None => self.items().len() == 0,
                Some(v) => exists|a: int, b: int|
                    0 <= a < self.items().len() && 0 <= b < self.items().len() && v == self.items()[a].1
                        - self.items()[b].1 && forall|k: int|
                        0 <= k < self.items().len() ==> self.items()[b].1 <= #[trigger] self.items()[k].1
                            <= self.items()[a].1,
            },
    {
        if self.entries.len() == 0 {
            return None;
        }
        let mut hi: usize = 0;
        let mut lo: usize = 0;
        let mut k: usize = 1;
        while k < self.entries.len()
            invariant
                1 <= k <= self.entries@.len(),
                hi < k,
                lo < k,
                forall|j: int| 0 <= j < k ==> self.entries@[lo as int].1 <= #[trigger] self.entries@[j].1 <= self.entries@[hi as int].1,
            decreases self.entries@.len() - k,
        {
            if self.entries[k].1 > self.entries[hi].1 {
                hi = k;
            }
            if self.entries[k].1 < self.entries[lo].1 {
                lo = k;
            }
            k = k + 1;
        }
        let v = self.entries[hi].1 - self.entries[lo].1;
        assert(forall|j: int|
            0 <= j < self.items().len() ==> self.items()[lo as int].1 <= #[trigger] self.items()[j].1
                <= self.items()[hi as int].1);
        assert(v == self.items()[hi as int].1 - self.items()[lo as int].1);
        Some(v)
    }
}

impl Polymer {
    /// The number of characters in the template.
    pub fn template_len(&self) -> (r: usize)
        ensures
            r == self.spec_template().len(),
    {
        self.template.len()
    }
}

} // verus!
