//! The headers of an email, grouped by name: each name with the values of the
//! header fields of that name, in the order in which they occur.
use vstd::prelude::*;

verus! {

/// A header field as plain text: its name and its value.
pub type FieldView = (Seq<char>, Seq<char>);

/// A header name with its values.
pub type EntryView = (Seq<char>, Seq<Seq<char>>);

/// The values of the fields in `fields` whose name is `name`, in order.
pub open spec fn values_named(fields: Seq<FieldView>, name: Seq<char>) -> Seq<Seq<char>>
    decreases fields.len(),
{
    if fields.len() == 0 {
        seq![]
    } else if fields.last().0 == name {
        values_named(fields.drop_last(), name).push(fields.last().1)
    } else {
        values_named(fields.drop_last(), name)
    }
}

/// The headers that `fields` make up: each name that occurs, mapped to the
/// values of the fields of that name, in order.
pub open spec fn grouped_headers(fields: Seq<FieldView>) -> Map<Seq<char>, Seq<Seq<char>>> {
    Map::new(
        |name: Seq<char>| values_named(fields, name).len() > 0,
        |name: Seq<char>| values_named(fields, name),
    )
}

/// The values of the first entry named `name`, if any.
pub open spec fn lookup(entries: Seq<EntryView>, name: Seq<char>) -> Option<Seq<Seq<char>>>
    decreases entries.len(),
{
    if entries.len() == 0 {
        None
    } else if entries[0].0 == name {
        Some(entries[0].1)
    } else {
        lookup(entries.drop_first(), name)
    }
}

/// No two entries have the same name.
pub open spec fn names_distinct(entries: Seq<EntryView>) -> bool {
    forall|i: int, j: int| 0 <= i < j < entries.len() ==> #[trigger] entries[i].0 != #[trigger] entries[j].0
}

/// The map from each name of `entries` to its values.
pub open spec fn entries_map(entries: Seq<EntryView>) -> Map<Seq<char>, Seq<Seq<char>>> {
    Map::new(
        |name: Seq<char>| lookup(entries, name) is Some,
        |name: Seq<char>| lookup(entries, name)->0,
    )
}

/// Where names are distinct, the lookup of a name finds the entry of that
/// name, and finds nothing where no entry has it.
pub proof fn lemma_lookup(entries: Seq<EntryView>, name: Seq<char>)
    requires
        names_distinct(entries),
    ensures
        forall|i: int|
            0 <= i < entries.len() && #[trigger] entries[i].0 == name ==> lookup(entries, name)
                == Some(entries[i].1),
        (forall|i: int| 0 <= i < entries.len() ==> #[trigger] entries[i].0 != name) ==> lookup(
            entries,
            name,
        ) is None,
    decreases entries.len(),
{
    if entries.len() > 0 {
        let rest = entries.drop_first();
        assert(names_distinct(rest)) by {
            assert forall|i: int, j: int| 0 <= i < j < rest.len() implies #[trigger] rest[i].0
                != #[trigger] rest[j].0 by {
                assert(rest[i] == entries[i + 1]);
                assert(rest[j] == entries[j + 1]);
            }
        }
        lemma_lookup(rest, name);
        assert forall|i: int| 0 <= i < entries.len() && #[trigger] entries[i].0 == name implies lookup(
            entries,
            name,
        ) == Some(entries[i].1) by {
            if i > 0 {
                assert(rest[i - 1] == entries[i]);
                assert(entries[0].0 != entries[i].0);
            }
        }
        if forall|i: int| 0 <= i < entries.len() ==> #[trigger] entries[i].0 != name {
            assert forall|i: int| 0 <= i < rest.len() implies #[trigger] rest[i].0 != name by {
                assert(rest[i] == entries[i + 1]);
            }
        }
    }
}

/// A name has values in a list of fields exactly when some field carries that name.
pub proof fn lemma_values_named_nonempty(fields: Seq<FieldView>, name: Seq<char>)
    ensures
        values_named(fields, name).len() > 0 <==> exists|i: int|
            0 <= i < fields.len() && #[trigger] fields[i].0 == name,
    decreases fields.len(),
{
    if fields.len() > 0 {
        let rest = fields.drop_last();
        lemma_values_named_nonempty(rest, name);
        if exists|i: int| 0 <= i < fields.len() && #[trigger] fields[i].0 == name {
            let i = choose|i: int| 0 <= i < fields.len() && #[trigger] fields[i].0 == name;
            if i < fields.len() - 1 {
                assert(rest[i] == fields[i]);
            }
        }
        if exists|i: int| 0 <= i < rest.len() && #[trigger] rest[i].0 == name {
            let i = choose|i: int| 0 <= i < rest.len() && #[trigger] rest[i].0 == name;
            assert(fields[i] == rest[i]);
        }
    }
}

/// Grouping keeps every value under its own name, in order: the values that
/// the grouped headers hold for `name` are the values of exactly the fields
/// named `name`, in the order of the fields, and a name is present exactly when
/// some field carries it.
pub proof fn law_grouped_headers(fields: Seq<FieldView>, name: Seq<char>)
    ensures
        grouped_headers(fields).contains_key(name) <==> exists|i: int|
            0 <= i < fields.len() && #[trigger] fields[i].0 == name,
        grouped_headers(fields).contains_key(name) ==> grouped_headers(fields)[name] == fields.filter(
            |f: FieldView| f.0 == name,
        ).map_values(|f: FieldView| f.1),
{
    lemma_values_named_nonempty(fields, name);
    lemma_values_named_filter(fields, name);
}

proof fn lemma_values_named_filter(fields: Seq<FieldView>, name: Seq<char>)
    ensures
        values_named(fields, name) == fields.filter(|f: FieldView| f.0 == name).map_values(
            |f: FieldView| f.1,
        ),
    decreases fields.len(),
{
    reveal_with_fuel(Seq::filter, 1);
    let pred = |f: FieldView| f.0 == name;
    if fields.len() > 0 {
        lemma_values_named_filter(fields.drop_last(), name);
        let rest = fields.drop_last().filter(pred);
        if fields.last().0 == name {
            assert(rest.push(fields.last()).map_values(|f: FieldView| f.1) =~= rest.map_values(
                |f: FieldView| f.1,
            ).push(fields.last().1));
        }
    } else {
        assert(fields.filter(pred).map_values(|f: FieldView| f.1) =~= seq![]);
    }
}

/// The headers of an email: each header name with the values of the header
/// fields of that name, in order. No name occurs twice.
#[derive(Debug)]
pub struct EmailHeaders(Vec<(String, Vec<String>)>);

impl View for EmailHeaders {
    type V = Map<Seq<char>, Seq<Seq<char>>>;

    closed spec fn view(&self) -> Map<Seq<char>, Seq<Seq<char>>> {
        entries_map(self.0.deep_view())
    }
}

impl Clone for EmailHeaders {
    fn clone(&self) -> (res: Self)
        ensures
            res@ == self@,
    {
        proof {
            use_type_invariant(self);
        }
        let ghost es = self.0.deep_view();
        let mut entries: Vec<(String, Vec<String>)> = Vec::new();
        let mut i: usize = 0;
        while i < self.0.len()
            invariant
                es == self.0.deep_view(),
                names_distinct(es),
                0 <= i <= self.0.len(),
                entries.deep_view() == es.take(i as int),
            decreases self.0.len() - i,
        {
            let name = self.0[i].0.clone();
            let values = self.0[i].1.clone();
            assert(values.deep_view() =~= es[i as int].1);
            let ghost before = entries@;
            let ghost prev_dv = entries.deep_view();
            assert(entries.deep_view().len() == i);
            assert(before.len() == i);
            let ghost entry = (name, values);
            entries.push((name, values));
            proof {
                assert(entries@ =~= before.push(entry));
                assert forall|m: int| 0 <= m <= i implies #[trigger] entries.deep_view()[m]
                    == es.take(i + 1)[m] by {
                    if m < i {
                        assert(entries@[m] == before[m]);
                        assert(prev_dv[m] == before[m].deep_view());
                        assert(entries.deep_view()[m] == entries@[m].deep_view());
                    }
                }
                assert(entries.deep_view() =~= es.take(i + 1));
            }
            i = i + 1;
        }
        assert(es.take(self.0.len() as int) =~= es);
        let res = EmailHeaders(entries);
        assert(res@ =~= self@);
        res
    }
}

impl EmailHeaders {
    #[verifier::type_invariant]
    closed spec fn names_are_distinct(self) -> bool {
        names_distinct(self.0.deep_view())
    }

    /// Groups header fields by name, keeping for each name the values of its
    /// fields in the order in which they occur.
    pub fn new_from_mail(fields: &Vec<(String, String)>) -> (res: EmailHeaders)
        ensures
            res@ == grouped_headers(fields.deep_view()),
    {
        let ghost fs = fields.deep_view();
        let mut entries: Vec<(String, Vec<String>)> = Vec::new();
        let n = fields.len();
        let mut i: usize = 0;
        while i < n
            invariant
                n == fields.len(),
                fs == fields.deep_view(),
                0 <= i <= n,
                names_distinct(entries.deep_view()),
                forall|name: Seq<char>|
                    #![trigger lookup(entries.deep_view(), name)]
                    lookup(entries.deep_view(), name) == (if values_named(fs.take(i as int), name).len()
                        > 0 {
                        Some(values_named(fs.take(i as int), name))
                    } else {
                        None
                    }),
            decreases n - i,
        {
            let key: String = fields[i].0.clone();
            let value: String = fields[i].1.clone();
            let ghost prev = entries.deep_view();
            let ghost before = fs.take(i as int);
            let ghost after = fs.take(i + 1);
            assert(after.drop_last() =~= before);
            assert(after.last() == (key@, value@));
            let mut j: usize = 0;
            let mut found = false;
            while j < entries.len()
                invariant
                    entries.deep_view() == prev,
                    0 <= j <= entries.len(),
                    forall|m: int| 0 <= m < j ==> #[trigger] prev[m].0 != key@,
                    found ==> j < entries.len() && prev[j as int].0 == key@,
                ensures
                    entries.deep_view() == prev,
                    forall|m: int| 0 <= m < j ==> #[trigger] prev[m].0 != key@,
                    found ==> j < entries.len() && prev[j as int].0 == key@,
                    !found ==> j == entries.len(),
                decreases entries.len() - j + (if found { 0int } else { 1int }),
            {
                if entries[j].0 == key {
                    assert(prev[j as int].0 == key@);
                    found = true;
                    break;
                }
                assert(prev[j as int].0 != key@);
                j = j + 1;
            }
            proof {
                lemma_lookup(prev, key@);
            }
            if found {
                let ghost e0 = entries@;
                let (name, mut values) = entries.remove(j);
                proof {
                    assert(e0[j as int].deep_view() == prev[j as int]);
                    assert(values.deep_view() == prev[j as int].1);
                }
                let ghost v0 = values.deep_view();
                values.push(value);
                assert(values.deep_view() =~= v0.push(value@));
                let ghost entry = (name, values);
                entries.insert(j, (name, values));
                proof {
                    let updated = prev.update(j as int, (key@, prev[j as int].1.push(value@)));
                    assert(entries@ =~= e0.update(j as int, entry));
                    assert forall|m: int| 0 <= m < updated.len() implies #[trigger] entries.deep_view()[m]
                        == updated[m] by {
                        if m != j {
                            assert(entries@[m] == e0[m]);
                            assert(e0[m].deep_view() == prev[m]);
                        }
                    }
                    assert(entries.deep_view() =~= updated);
                    assert(names_distinct(updated)) by {
                        assert forall|a: int, b: int| 0 <= a < b < updated.len() implies #[trigger] updated[a].0
                            != #[trigger] updated[b].0 by {
                            assert(updated[a].0 == prev[a].0);
                            assert(updated[b].0 == prev[b].0);
                        }
                    }
                    assert forall|name: Seq<char>|
                        #![trigger lookup(entries.deep_view(), name)]
                        lookup(entries.deep_view(), name) == (if values_named(after, name).len() > 0 {
                            Some(values_named(after, name))
                        } else {
                            None
                        }) by {
                        lemma_lookup(prev, name);
                        lemma_lookup(updated, name);
                        if name == key@ {
                            assert(updated[j as int].0 == name);
                        } else {
                            if exists|m: int| 0 <= m < prev.len() && #[trigger] prev[m].0 == name {
                                let m = choose|m: int| 0 <= m < prev.len() && #[trigger] prev[m].0 == name;
                                assert(updated[m] == prev[m]);
                            } else {
                                assert forall|m: int| 0 <= m < updated.len() implies #[trigger] updated[m].0
                                    != name by {
                                    assert(updated[m].0 == prev[m].0);
                                }
                            }
                        }
                    }
                }
            } else {
                let mut values: Vec<String> = Vec::new();
                values.push(value);
                assert(values.deep_view() =~= seq![value@]);
                let ghost e0 = entries@;
                let ghost entry = (key, values);
                entries.push((key, values));
                proof {
                    let pushed = prev.push((key@, seq![value@]));
                    assert(entries@ =~= e0.push(entry));
                    assert(e0.len() == prev.len());
                    assert forall|m: int| 0 <= m < pushed.len() implies #[trigger] entries.deep_view()[m]
                        == pushed[m] by {
                        if m < prev.len() {
                            assert(entries@[m] == e0[m]);
                            assert(e0[m].deep_view() == prev[m]);
                        }
                    }
                    assert(lookup(prev, key@) is None);
                    assert(values_named(before, key@).len() == 0);
                    assert(entries.deep_view() =~= pushed);
                    assert(names_distinct(pushed)) by {
                        assert forall|a: int, b: int| 0 <= a < b < pushed.len() implies #[trigger] pushed[a].0
                            != #[trigger] pushed[b].0 by {
                            if b == prev.len() {
                                assert(pushed[a] == prev[a]);
                            } else {
                                assert(pushed[a] == prev[a]);
                                assert(pushed[b] == prev[b]);
                            }
                        }
                    }
                    assert forall|name: Seq<char>|
                        #![trigger lookup(entries.deep_view(), name)]
                        lookup(entries.deep_view(), name) == (if values_named(after, name).len() > 0 {
                            Some(values_named(after, name))
                        } else {
                            None
                        }) by {
                        lemma_lookup(prev, name);
                        lemma_lookup(pushed, name);
                        if name == key@ {
                            assert(pushed[prev.len() as int].0 == name);
                            assert(values_named(before, name) =~= seq![]);
                        } else {
                            if exists|m: int| 0 <= m < prev.len() && #[trigger] prev[m].0 == name {
                                let m = choose|m: int| 0 <= m < prev.len() && #[trigger] prev[m].0 == name;
                                assert(pushed[m] == prev[m]);
                            } else {
                                assert forall|m: int| 0 <= m < pushed.len() implies #[trigger] pushed[m].0
                                    != name by {
                                    if m < prev.len() {
                                        assert(pushed[m] == prev[m]);
                                    }
                                }
                            }
                        }
                    }
                }
            }
            i = i + 1;
        }
        assert(fs.take(n as int) =~= fs);
        let res = EmailHeaders(entries);
        assert(res@ =~= grouped_headers(fs));
        res
    }

    /// The entries of these headers, each a name with its values; no name occurs twice.
    pub fn entries(&self) -> (res: &Vec<(String, Vec<String>)>)
        ensures
            names_distinct(res.deep_view()),
            entries_map(res.deep_view()) == self@,
    {
        proof {
            use_type_invariant(self);
        }
        &self.0
    }

    /// Headers with the given entries, or `None` where two entries have the same name.
    pub fn from_entries(entries: Vec<(String, Vec<String>)>) -> (res: Option<EmailHeaders>)
        ensures
            res is Some <==> names_distinct(entries.deep_view()),
            res matches Some(h) ==> h@ == entries_map(entries.deep_view()),
    {
        let ghost es = entries.deep_view();
        let n = entries.len();
        let mut i: usize = 0;
        while i < n
            invariant
                n == entries.len(),
                es == entries.deep_view(),
                0 <= i <= n,
                forall|a: int, b: int| 0 <= a < b < n && a < i ==> #[trigger] es[a].0 != #[trigger] es[b].0,
            decreases n - i,
        {
            let mut j: usize = i + 1;
            while j < n
                invariant
                    n == entries.len(),
                    es == entries.deep_view(),
                    i < n,
                    i + 1 <= j <= n,
                    forall|b: int| i < b < j ==> es[i as int].0 != #[trigger] es[b].0,
                decreases n - j,
            {
                if entries[i].0 == entries[j].0 {
                    assert(es[i as int].0 == es[j as int].0);
                    return None;
                }
                j = j + 1;
            }
            i = i + 1;
        }
        Some(EmailHeaders(entries))
    }

    /// The values of the header named `name`, in order, or `None` where no
    /// header has that name.
    pub fn get_header(&self, name: &str) -> (res: Option<Vec<String>>)
        ensures
            res.deep_view() == (if self@.contains_key(name@) {
                Some(self@[name@])
            } else {
                None
            }),
    {
        proof {
            use_type_invariant(self);
        }
        let ghost es = self.0.deep_view();
        let wanted = String::from_str(name);
        let mut j: usize = 0;
        while j < self.0.len()
            invariant
                es == self.0.deep_view(),
                names_distinct(es),
                wanted@ == name@,
                0 <= j <= self.0.len(),
                forall|m: int| 0 <= m < j ==> #[trigger] es[m].0 != name@,
            decreases self.0.len() - j,
        {
            if self.0[j].0 == wanted {
                proof {
                    lemma_lookup(es, name@);
                    assert(es[j as int].0 == name@);
                }
                let values = self.0[j].1.clone();
                proof {
                    assert(values.deep_view() =~= es[j as int].1);
                }
                return Some(values);
            }
            j = j + 1;
        }
        proof {
            lemma_lookup(es, name@);
        }
        None
    }
}

} // verus!
