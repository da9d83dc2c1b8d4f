use vstd::prelude::*;

verus! {

/// One logged entry. Once built it is never changed.
#[derive(Clone, Debug, PartialEq, Eq)]
pub struct RegretEntry {
    pub timestamp: String,
    pub text: String,
    pub tags: Vec<String>,
    pub mood: Option<u8>,
}

/// The mathematical content of a [`RegretEntry`].
pub struct EntryView {
    pub timestamp: Seq<char>,
    pub text: Seq<char>,
    pub tags: Seq<Seq<char>>,
    pub mood: Option<u8>,
}

/// The content of a list of strings.
pub open spec fn strings_view(v: Seq<String>) -> Seq<Seq<char>> {
    v.map_values(|s: String| s@)
}

impl View for RegretEntry {
    type V = EntryView;

    open spec fn view(&self) -> EntryView {
        EntryView {
            timestamp: self.timestamp@,
            text: self.text@,
            tags: strings_view(self.tags@),
            mood: self.mood,
        }
    }
}

/// The content of a whole log, entry by entry, oldest first.
pub open spec fn log_view(log: Seq<RegretEntry>) -> Seq<EntryView> {
    log.map_values(|e: RegretEntry| e@)
}

/// A fresh copy of a list of strings.
pub fn copy_strings(v: &Vec<String>) -> (r: Vec<String>)
    ensures
        r@ == v@,
{
    let mut r: Vec<String> = Vec::new();
    let mut i: usize = 0;
    while i < v.len()
        invariant
            i <= v@.len(),
            r@ == v@.subrange(0, i as int),
        decreases v@.len() - i,
    {
        let s = v[i].clone();
        assert(s == v@[i as int]);
        r.push(s);
        i = i + 1;
        assert(r@ =~= v@.subrange(0, i as int));
    }
    assert(v@.subrange(0, v@.len() as int) =~= v@);
    r
}

impl RegretEntry {
    /// A fresh copy of this entry, field by field.
    pub fn copy(&self) -> (r: RegretEntry)
        ensures
            r@ == self@,
    {
        RegretEntry {
            timestamp: self.timestamp.clone(),
            text: self.text.clone(),
            tags: copy_strings(&self.tags),
            mood: self.mood,
        }
    }
}

} // verus!
