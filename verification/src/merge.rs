//! The translation merger: several `|`-separated texts become one table of
//! values grouped by key, and a small rewrite of parameter markers.
//!
//! Each line of each text is `key|value|...`; values are collected per key,
//! across all texts, in the order they appear.  Keys keep the order of
//! their first appearance.

use crate::text::lines_of;
use crate::text::split_lines;
use crate::text::split_on;
use crate::text::split_str;
use crate::text::str_eq;
use crate::text::str_views;
use crate::text::push_char;
use vstd::prelude::*;

verus! {

/// A line that the merger accepts: at least two `|`-separated fields.
pub open spec fn line_ok(line: Seq<char>) -> bool {
    split_on(line, '|').len() >= 2
}

/// Every line of the text has a key and a value.
pub open spec fn csv_ok(s: Seq<char>) -> bool {
    forall|i: int| 0 <= i < lines_of(s).len() ==> line_ok(#[trigger] lines_of(s)[i])
}

/// Appends `v` under `k`; a new key opens a group at the end.
pub open spec fn group_upsert(
    gs: Seq<(Seq<char>, Seq<Seq<char>>)>,
    k: Seq<char>,
    v: Seq<char>,
) -> Seq<(Seq<char>, Seq<Seq<char>>)>
    decreases gs.len(),
{
    if gs.len() == 0 {
        seq![(k, seq![v])]
    } else if gs[0].0 == k {
        seq![(k, gs[0].1.push(v))] + gs.drop_first()
    } else {
        seq![gs[0]] + group_upsert(gs.drop_first(), k, v)
    }
}

/// Folds the key/value pairs of each line into the groups, in line order.
pub open spec fn groups_of_lines(
    gs: Seq<(Seq<char>, Seq<Seq<char>>)>,
    lines: Seq<Seq<char>>,
) -> Seq<(Seq<char>, Seq<Seq<char>>)>
    decreases lines.len(),
{
    if lines.len() == 0 {
        gs
    } else {
        let g = groups_of_lines(gs, lines.drop_last());
        let f = split_on(lines.last(), '|');
        group_upsert(g, f[0], f[1])
    }
}

/// Folds every text in order.
pub open spec fn groups_of_texts(texts: Seq<Seq<char>>) -> Seq<(Seq<char>, Seq<Seq<char>>)>
    decreases texts.len(),
{
    if texts.len() == 0 {
        Seq::empty()
    } else {
        groups_of_lines(groups_of_texts(texts.drop_last()), lines_of(texts.last()))
    }
}

/// One key with its collected values.
#[derive(Debug)]
pub struct TextGroup<'a> {
    pub key: &'a str,
    pub values: Vec<&'a str>,
}

/// Values grouped by key, keys in first-appearance order.
#[derive(Debug)]
pub struct TextGroups<'a> {
    pub groups: Vec<TextGroup<'a>>,
}

impl<'a> TextGroup<'a> {
    pub open spec fn model(self) -> (Seq<char>, Seq<Seq<char>>) {
        (self.key@, str_views(self.values@))
    }
}

impl<'a> TextGroups<'a> {
    pub open spec fn model(self) -> Seq<(Seq<char>, Seq<Seq<char>>)> {
        self.groups@.map_values(|g: TextGroup<'a>| g.model())
    }

    /// Appends `value` under `key`, opening a new group at the end when the
    /// key is new.
    fn add(&mut self, key: &'a str, value: &'a str)
        ensures
            final(self).model() =~~= group_upsert(old(self).model(), key@, value@),
    {
        let n = self.groups.len();
        let ghost m0 = self.model();
        proof {
            assert(m0.skip(0) =~= m0);
            assert(m0.subrange(0, 0) + group_upsert(m0.skip(0), key@, value@) =~~= group_upsert(
                m0,
                key@,
                value@,
            ));
        }
        let mut i: usize = 0;
        while i < n
            invariant
                0 <= i <= n == self.groups@.len(),
                m0 == self.model(),
                forall|j: int| 0 <= j < i ==> (#[trigger] self.groups@[j]).key@ != key@,
                group_upsert(m0, key@, value@) == m0.subrange(0, i as int) + group_upsert(
                    m0.skip(i as int),
                    key@,
                    value@,
                ),
            ensures
                0 <= i <= n,
                m0 == self.model(),
                group_upsert(m0, key@, value@) == m0.subrange(0, i as int) + group_upsert(
                    m0.skip(i as int),
                    key@,
                    value@,
                ),
                i < n ==> m0[i as int].0 == key@,
            decreases n - i,
        {
            proof {
                assert(m0.skip(i as int)[0] == m0[i as int]);
                assert(m0[i as int] == self.groups@[i as int].model());
            }
            if str_eq(self.groups[i].key, key) {
                break ;
            }
            proof {
                assert(m0.skip(i as int).drop_first() =~= m0.skip(i + 1));
                assert(group_upsert(m0.skip(i as int), key@, value@) == seq![m0[i as int]]
                    + group_upsert(m0.skip(i + 1), key@, value@));
                assert(m0.subrange(0, i as int) + (seq![m0[i as int]] + group_upsert(
                    m0.skip(i + 1),
                    key@,
                    value@,
                )) =~~= m0.subrange(0, i + 1) + group_upsert(m0.skip(i + 1), key@, value@));
            }
            i = i + 1;
        }
        if i < n {
            proof {
                assert(m0.skip(i as int)[0] == m0[i as int]);
                assert(m0.skip(i as int).drop_first() =~= m0.skip(i + 1));
                assert(group_upsert(m0.skip(i as int), key@, value@) == seq![
                    (key@, m0[i as int].1.push(value@)),
                ] + m0.skip(i + 1));
            }
            let mut g = self.groups.remove(i);
            g.values.push(value);
            let ghost gm = g.model();
            proof {
                assert(gm.1 =~= m0[i as int].1.push(value@));
            }
            self.groups.insert(i, g);
            proof {
                assert(self.model() =~~= m0.subrange(0, i as int) + (seq![
                    (key@, m0[i as int].1.push(value@)),
                ] + m0.skip(i + 1)));
                assert(self.model() =~~= group_upsert(m0, key@, value@));
            }
        } else {
            proof {
                assert(m0.skip(i as int) =~= Seq::<(Seq<char>, Seq<Seq<char>>)>::empty());
            }
            let mut values: Vec<&'a str> = Vec::new();
            values.push(value);
            let g = TextGroup { key, values };
            proof {
                assert(g.model().1 =~= seq![value@]);
            }
            self.groups.push(g);
            proof {
                assert(self.model() =~~= m0.subrange(0, i as int) + group_upsert(
                    m0.skip(i as int),
                    key@,
                    value@,
                ));
                assert(self.model() =~~= group_upsert(m0, key@, value@));
            }
        }
    }
}

/// Groups the `key|value` lines of several texts by key, values in
/// encounter order, keys in first-appearance order.
pub fn multiple_csv_to_hashmap<'a>(multiple_csv: Vec<&'a str>) -> (r: TextGroups<'a>)
    requires
        forall|i: int| 0 <= i < multiple_csv@.len() ==> csv_ok((#[trigger] multiple_csv@[i])@),
    ensures
        r.model() =~~= groups_of_texts(str_views(multiple_csv@)),
{
    let mut r = TextGroups { groups: Vec::new() };
    let ghost texts = str_views(multiple_csv@);
    proof {
        assert(r.model() =~~= Seq::<(Seq<char>, Seq<Seq<char>>)>::empty());
        assert(texts.subrange(0, 0) =~= Seq::<Seq<char>>::empty());
    }
    let n = multiple_csv.len();
    let mut i: usize = 0;
    while i < n
        invariant
            0 <= i <= n == multiple_csv@.len(),
            texts == str_views(multiple_csv@),
            forall|k: int| 0 <= k < n ==> csv_ok((#[trigger] multiple_csv@[k])@),
            r.model() =~~= groups_of_texts(texts.subrange(0, i as int)),
        decreases n - i,
    {
        let csv = multiple_csv[i];
        proof {
            assert(texts[i as int] == csv@);
            assert(texts.subrange(0, i + 1).drop_last() =~= texts.subrange(0, i as int));
            assert(texts.subrange(0, i + 1).last() == texts[i as int]);
        }
        let lines = split_lines(csv);
        let ghost ls = lines_of(csv@);
        let ghost g0 = r.model();
        proof {
            assert(ls.subrange(0, 0) =~= Seq::<Seq<char>>::empty());
            assert(r.model() =~~= groups_of_lines(g0, ls.subrange(0, 0)));
        }
        let ln = lines.len();
        let mut j: usize = 0;
        while j < ln
            invariant
                0 <= j <= ln == lines@.len(),
                str_views(lines@) == ls,
                ls == lines_of(multiple_csv@[i as int]@),
                0 <= i < multiple_csv@.len(),
                csv_ok(multiple_csv@[i as int]@),
                r.model() =~~= groups_of_lines(g0, ls.subrange(0, j as int)),
            decreases ln - j,
        {
            let line = lines[j];
            proof {
                assert(ls[j as int] == line@);
                assert(line_ok(line@));
                assert(ls.subrange(0, j + 1).drop_last() =~= ls.subrange(0, j as int));
                assert(ls.subrange(0, j + 1).last() == ls[j as int]);
            }
            let fields = split_str(line, '|');
            proof {
                assert(fields@.len() == split_on(line@, '|').len());
                assert((fields@[0])@ == split_on(line@, '|')[0]);
                assert((fields@[1])@ == split_on(line@, '|')[1]);
            }
            let key = fields[0];
            let value = fields[1];
            r.add(key, value);
            proof {
                assert(r.model() =~~= groups_of_lines(g0, ls.subrange(0, j + 1)));
            }
            j = j + 1;
        }
        proof {
            assert(ls.subrange(0, ln as int) =~= ls);
            assert(r.model() =~~= groups_of_texts(texts.subrange(0, i + 1)));
        }
        i = i + 1;
    }
    proof {
        assert(texts.subrange(0, n as int) =~= texts);
    }
    r
}

// ---------------------------------------------------------------------------
// Parameter-marker rewriting
// ---------------------------------------------------------------------------

/// The text with every `[%` rewritten to `{` and every `]` to `}`.
pub open spec fn reformat(s: Seq<char>) -> Seq<char>
    decreases s.len(),
{
    if s.len() == 0 {
        Seq::empty()
    } else if s.len() >= 2 && s[0] == '[' && s[1] == '%' {
        seq!['{'] + reformat(s.skip(2))
    } else if s[0] == ']' {
        seq!['}'] + reformat(s.skip(1))
    } else {
        seq![s[0]] + reformat(s.skip(1))
    }
}

/// Rewrites parameter markers from `[%name]` to `{name}` in place.
pub fn change_parameters_format(input: &mut String)
    ensures
        final(input)@ == reformat(old(input)@),
{
    let ghost s = input@;
    let n = input.as_str().unicode_len();
    let mut out = String::new();
    proof {
        assert(out@ + reformat(s.skip(0)) =~= reformat(s)) by {
            assert(s.skip(0) =~= s);
        }
    }
    let mut i: usize = 0;
    while i < n
        invariant
            0 <= i <= n == s.len(),
            s == input@,
            reformat(s) == out@ + reformat(s.skip(i as int)),
        decreases n - i,
    {
        let c = input.as_str().get_char(i);
        proof {
            assert(s.skip(i as int)[0] == s[i as int]);
            if i + 1 < n {
                assert(s.skip(i as int)[1] == s[i + 1]);
            }
        }
        if c == '[' && i + 1 < n && input.as_str().get_char(i + 1) == '%' {
            push_char(&mut out, '{');
            proof {
                assert(s.skip(i as int).skip(2) =~= s.skip(i + 2));
                assert(reformat(s.skip(i as int)) == seq!['{'] + reformat(s.skip(i + 2)));
                assert(out@ + reformat(s.skip(i + 2)) =~= reformat(s));
            }
            i = i + 2;
        } else {
            proof {
                if i + 1 >= n {
                    assert(s.skip(i as int).len() == n - i);
                    assert(s.skip(i as int).len() < 2);
                }
            }
            if c == ']' {
                push_char(&mut out, '}');
            } else {
                push_char(&mut out, c);
            }
            proof {
                assert(s.skip(i as int).skip(1) =~= s.skip(i + 1));
                assert(out@ + reformat(s.skip(i + 1)) =~= reformat(s));
            }
            i = i + 1;
        }
    }
    proof {
        assert(s.skip(n as int) =~= Seq::<char>::empty());
        assert(reformat(Seq::<char>::empty()) =~= Seq::<char>::empty());
    }
    *input = out;
}

} // verus!
