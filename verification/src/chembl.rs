//! The ChEMBL compound store: one record per compound, keyed by its
//! database identifier.

use vstd::prelude::*;
use vstd::string::StrSliceExecFns;

verus! {

/// The fields of a line, split on the tab character. Splitting keeps
/// empty fields, so the result always has one more element than the
/// line has tabs; an empty line yields one empty field.
pub open spec fn spec_split(s: Seq<char>) -> Seq<Seq<char>>
    decreases s.len(),
{
    if s.len() == 0 {
        seq![Seq::<char>::empty()]
    } else if s.last() == '\t' {
        spec_split(s.drop_last()).push(Seq::<char>::empty())
    } else {
        let r = spec_split(s.drop_last());
        r.update(r.len() - 1, r.last().push(s.last()))
    }
}

/// The views of a sequence of strings.
pub open spec fn strs_view(v: Seq<String>) -> Seq<Seq<char>> {
    v.map_values(|s: String| s@)
}

/// Splitting never yields an empty field list.
pub proof fn lemma_split_len(s: Seq<char>)
    ensures
        spec_split(s).len() >= 1,
    decreases s.len(),
{
    if s.len() > 0 {
        lemma_split_len(s.drop_last());
    }
}

/// Splits a line on the tab character, keeping empty fields.
pub fn split_tabs(line: &str) -> (r: Vec<String>)
    ensures
        strs_view(r@) == spec_split(line@),
{
    let n: usize = line.unicode_len();
    let mut fields: Vec<String> = Vec::new();
    let mut start: usize = 0;
    let mut i: usize = 0;
    proof {
        assert(line@.subrange(0, 0) =~= Seq::<char>::empty());
        assert(strs_view(fields@).push(line@.subrange(0, 0)) =~= seq![
            Seq::<char>::empty(),
        ]);
    }
    while i < n
        invariant
            n == line@.len(),
            start <= i <= n,
            forall|j: int| start <= j < i ==> line@[j] != '\t',
            strs_view(fields@).push(line@.subrange(start as int, i as int)) == spec_split(
                line@.subrange(0, i as int),
            ),
        decreases n - i,
    {
        let ghost pre = line@.subrange(0, i as int);
        let ghost post = line@.subrange(0, i as int + 1);
        proof {
            assert(post.drop_last() =~= pre);
            assert(post.last() == line@[i as int]);
        }
        let c = line.get_char(i);
        if c == '\t' {
            let field = line.substring_char(start, i).to_owned();
            let ghost old_fields = fields@;
            fields.push(field);
            proof {
                assert(strs_view(fields@) =~= strs_view(old_fields).push(
                    line@.subrange(start as int, i as int),
                ));
                assert(line@.subrange(i as int + 1, i as int + 1) =~= Seq::<char>::empty());
                assert(strs_view(fields@).push(line@.subrange(i as int + 1, i as int + 1))
                    =~= spec_split(pre).push(Seq::<char>::empty()));
            }
            start = i + 1;
        } else {
            proof {
                let r = spec_split(pre);
                lemma_split_len(pre);
                assert(r.update(r.len() - 1, r.last().push(line@[i as int])) =~= strs_view(
                    fields@,
                ).push(line@.subrange(start as int, i as int).push(line@[i as int])));
                assert(line@.subrange(start as int, i as int).push(line@[i as int])
                    =~= line@.subrange(start as int, i as int + 1));
            }
        }
        i = i + 1;
    }
    let last_field = line.substring_char(start, n).to_owned();
    let ghost old_fields = fields@;
    fields.push(last_field);
    proof {
        assert(strs_view(fields@) =~= strs_view(old_fields).push(
            line@.subrange(start as int, n as int),
        ));
        assert(line@.subrange(0, n as int) =~= line@);
    }
    fields
}

/// Ghost model of one compound record: the four fields as character
/// sequences.
#[verifier::ext_equal]
pub ghost struct EntryModel {
    pub id: Seq<char>,
    pub smiles: Seq<char>,
    pub inchi: Seq<char>,
    pub inchi_key: Seq<char>,
}

/// A line is well formed when splitting it on tabs yields at least the
/// four required fields; further fields are ignored.
pub open spec fn line_wf(l: Seq<char>) -> bool {
    spec_split(l).len() >= 4
}

/// The record a well-formed line describes: the first four fields,
/// positionally.
pub open spec fn line_entry(l: Seq<char>) -> EntryModel {
    EntryModel {
        id: spec_split(l)[0],
        smiles: spec_split(l)[1],
        inchi: spec_split(l)[2],
        inchi_key: spec_split(l)[3],
    }
}

/// No two records share an id: the store behaves as a mapping.
pub open spec fn distinct_ids(s: Seq<EntryModel>) -> bool {
    forall|i: int, j: int| 0 <= i < j < s.len() ==> s[i].id != s[j].id
}

/// Whether some record in `s` carries the given id.
pub open spec fn has_id(s: Seq<EntryModel>, id: Seq<char>) -> bool {
    exists|i: int| 0 <= i < s.len() && s[i].id == id
}

/// The position of the record carrying the given id (unique when the
/// ids are distinct).
pub open spec fn idx_of(s: Seq<EntryModel>, id: Seq<char>) -> int
    recommends
        has_id(s, id),
{
    choose|i: int| 0 <= i < s.len() && s[i].id == id
}

/// Mapping-style lookup over the record sequence.
pub open spec fn spec_get(s: Seq<EntryModel>, id: Seq<char>) -> Option<EntryModel> {
    if has_id(s, id) {
        Some(s[idx_of(s, id)])
    } else {
        None
    }
}

/// Mapping-style insertion: a record with a colliding id replaces the
/// earlier one in place; a fresh id is appended.
pub open spec fn insert_entry(s: Seq<EntryModel>, e: EntryModel) -> Seq<EntryModel> {
    if has_id(s, e.id) {
        s.update(idx_of(s, e.id), e)
    } else {
        s.push(e)
    }
}

/// Removal by id; without the id the sequence is unchanged.
pub open spec fn remove_id(s: Seq<EntryModel>, id: Seq<char>) -> Seq<EntryModel> {
    if has_id(s, id) {
        s.remove(idx_of(s, id))
    } else {
        s
    }
}

/// The records a sequence of well-formed lines loads to, before
/// sanitation: lines are inserted in order, so a later line with a
/// colliding id wins.
pub open spec fn parsed_lines(lines: Seq<Seq<char>>) -> Seq<EntryModel>
    decreases lines.len(),
{
    if lines.len() == 0 {
        Seq::empty()
    } else {
        insert_entry(parsed_lines(lines.drop_last()), line_entry(lines.last()))
    }
}

/// The header-sentinel id: a record under this id can only come from
/// the dump's own header row ingested as data, and is dropped after
/// load.
pub open spec fn sentinel_id() -> Seq<char> {
    "chembl_id"@
}

/// What a store holds after a successful load of `lines`.
pub open spec fn loaded_model(lines: Seq<Seq<char>>) -> Seq<EntryModel> {
    remove_id(parsed_lines(lines), sentinel_id())
}

/// One chemical compound entry: four tab-separated columns of the dump,
/// positionally.
pub struct EntryChembl {
    pub chembl_id: String,
    pub smiles: String,
    pub inchi: String,
    pub inchi_key: String,
}

impl View for EntryChembl {
    type V = EntryModel;

    open spec fn view(&self) -> EntryModel {
        EntryModel {
            id: self.chembl_id@,
            smiles: self.smiles@,
            inchi: self.inchi@,
            inchi_key: self.inchi_key@,
        }
    }
}

impl EntryChembl {
    /// Builds a record from the first four fields of a split line;
    /// further fields are ignored.
    pub fn new(v: Vec<String>) -> (r: Self)
        requires
            v@.len() >= 4,
        ensures
            r@.id == v@[0]@,
            r@.smiles == v@[1]@,
            r@.inchi == v@[2]@,
            r@.inchi_key == v@[3]@,
    {
        EntryChembl {
            chembl_id: v[0].clone(),
            smiles: v[1].clone(),
            inchi: v[2].clone(),
            inchi_key: v[3].clone(),
        }
    }
}

impl Clone for EntryChembl {
    fn clone(&self) -> (r: Self)
        ensures
            r@ == self@,
    {
        EntryChembl {
            chembl_id: self.chembl_id.clone(),
            smiles: self.smiles.clone(),
            inchi: self.inchi.clone(),
            inchi_key: self.inchi_key.clone(),
        }
    }
}

/// Relies on rand::Rng::gen_range on the thread-local generator: for a
/// non-empty range `0..n` it returns a value of that range. Nothing
/// more is assumed of a random draw.
#[verifier::external_body]
fn rand_below(n: usize) -> (r: usize)
    requires
        n > 0,
    ensures
        r < n,
{
    rand::Rng::gen_range(&mut rand::thread_rng(), 0..n)
}

/// The views of a sequence of records.
pub open spec fn entries_view(v: Seq<EntryChembl>) -> Seq<EntryModel> {
    v.map_values(|e: EntryChembl| e@)
}

/// In a store with distinct ids, each stored record is found under its
/// own id: looking up the id of the record at any position yields that
/// record.
pub proof fn lemma_stored_entry_found(s: Seq<EntryModel>, i: int)
    requires
        distinct_ids(s),
        0 <= i < s.len(),
    ensures
        has_id(s, s[i].id),
        idx_of(s, s[i].id) == i,
        spec_get(s, s[i].id) == Some(s[i]),
{
    assert(0 <= i < s.len() && s[i].id == s[i].id);
    let j = idx_of(s, s[i].id);
    if i < j {
        assert(s[i].id != s[j].id);
    } else if j < i {
        assert(s[j].id != s[i].id);
    }
}

/// Inserting a record adds exactly its id: an id is present afterwards
/// if and only if it was present before or is the inserted record's.
pub proof fn lemma_insert_has_id(s: Seq<EntryModel>, e: EntryModel, id: Seq<char>)
    ensures
        has_id(insert_entry(s, e), id) <==> (has_id(s, id) || id == e.id),
{
    if has_id(s, e.id) {
        let i = idx_of(s, e.id);
        assert(0 <= i < s.len() && s[i].id == e.id);
        let t = s.update(i, e);
        if id == e.id {
            assert(t[i].id == id);
            assert(has_id(t, id));
        } else {
            if has_id(t, id) {
                let j = choose|j: int| 0 <= j < t.len() && t[j].id == id;
                assert(j != i);
                assert(s[j].id == id);
                assert(has_id(s, id));
            }
            if has_id(s, id) {
                let j = choose|j: int| 0 <= j < s.len() && s[j].id == id;
                assert(j != i);
                assert(t[j].id == id);
                assert(has_id(t, id));
            }
        }
    } else {
        let t = s.push(e);
        if id == e.id {
            assert(t[s.len() as int].id == id);
            assert(has_id(t, id));
        }
        if has_id(s, id) {
            let j = choose|j: int| 0 <= j < s.len() && s[j].id == id;
            assert(t[j].id == id);
            assert(has_id(t, id));
        }
        if has_id(t, id) && id != e.id {
            let j = choose|j: int| 0 <= j < t.len() && t[j].id == id;
            assert(j < s.len());
            assert(has_id(s, id));
        }
    }
}

/// Removal adds no id: an id present after `remove_id` was present
/// before.
pub proof fn lemma_remove_keeps_no_new_id(s: Seq<EntryModel>, removed: Seq<char>, id: Seq<char>)
    requires
        has_id(remove_id(s, removed), id),
    ensures
        has_id(s, id),
{
    if has_id(s, removed) {
        let i = idx_of(s, removed);
        let t = s.remove(i);
        let j = choose|j: int| 0 <= j < t.len() && t[j].id == id;
        if j < i {
            assert(s[j].id == id);
        } else {
            assert(s[j + 1].id == id);
        }
    }
}

/// The ids a load produces are exactly the first fields of the input
/// lines: nothing else survives into the parsed records.
pub proof fn lemma_parsed_has_id(lines: Seq<Seq<char>>, id: Seq<char>)
    ensures
        has_id(parsed_lines(lines), id) <==> (exists|k: int|
            0 <= k < lines.len() && #[trigger] line_entry(lines[k]).id == id),
    decreases lines.len(),
{
    if lines.len() > 0 {
        let rest = lines.drop_last();
        lemma_parsed_has_id(rest, id);
        lemma_insert_has_id(parsed_lines(rest), line_entry(lines.last()), id);
        if has_id(parsed_lines(lines), id) {
            if has_id(parsed_lines(rest), id) {
                let k = choose|k: int|
                    0 <= k < rest.len() && #[trigger] line_entry(rest[k]).id == id;
                assert(lines[k] == rest[k]);
                assert(line_entry(lines[k]).id == id);
            } else {
                assert(line_entry(lines[lines.len() - 1]).id == id);
            }
        }
        if exists|k: int| 0 <= k < lines.len() && #[trigger] line_entry(lines[k]).id == id {
            let k = choose|k: int| 0 <= k < lines.len() && #[trigger] line_entry(lines[k]).id == id;
            if k < lines.len() - 1 {
                assert(rest[k] == lines[k]);
                assert(line_entry(rest[k]).id == id);
                assert(has_id(parsed_lines(rest), id));
            } else {
                assert(lines.last() == lines[k]);
            }
        }
    }
}

/// Loading lines whose ids are pairwise distinct produces one record
/// per line.
pub proof fn lemma_parsed_len_distinct(lines: Seq<Seq<char>>)
    requires
        forall|k1: int, k2: int|
            0 <= k1 < k2 < lines.len() ==> #[trigger] line_entry(lines[k1]).id
                != #[trigger] line_entry(lines[k2]).id,
    ensures
        parsed_lines(lines).len() == lines.len(),
    decreases lines.len(),
{
    if lines.len() > 0 {
        let rest = lines.drop_last();
        assert(forall|k: int| 0 <= k < rest.len() ==> rest[k] == lines[k]);
        lemma_parsed_len_distinct(rest);
        let e = line_entry(lines.last());
        lemma_parsed_has_id(rest, e.id);
        if has_id(parsed_lines(rest), e.id) {
            let k = choose|k: int| 0 <= k < rest.len() && #[trigger] line_entry(rest[k]).id == e.id;
            assert(line_entry(lines[k]).id == line_entry(lines[lines.len() - 1]).id);
            assert(false);
        }
        assert(parsed_lines(lines) == parsed_lines(rest).push(e));
    }
}

/// Loading a file with N well-formed lines whose ids are pairwise
/// distinct, none of them the header sentinel, yields a store of
/// exactly N records.
pub proof fn lemma_distinct_load_count(lines: Seq<Seq<char>>)
    requires
        forall|k1: int, k2: int|
            0 <= k1 < k2 < lines.len() ==> #[trigger] line_entry(lines[k1]).id
                != #[trigger] line_entry(lines[k2]).id,
        forall|k: int| 0 <= k < lines.len() ==> #[trigger] line_entry(lines[k]).id != sentinel_id(),
    ensures
        loaded_model(lines).len() == lines.len(),
{
    lemma_parsed_len_distinct(lines);
    lemma_parsed_has_id(lines, sentinel_id());
    assert(!has_id(parsed_lines(lines), sentinel_id()));
}

/// Reloading fully discards prior contents: after a load, an id that is
/// the first field of no input line is absent, whatever the store held
/// before.
pub proof fn lemma_load_discards(lines: Seq<Seq<char>>, id: Seq<char>)
    requires
        forall|k: int| 0 <= k < lines.len() ==> #[trigger] line_entry(lines[k]).id != id,
    ensures
        spec_get(loaded_model(lines), id) is None,
{
    if has_id(loaded_model(lines), id) {
        lemma_remove_keeps_no_new_id(parsed_lines(lines), sentinel_id(), id);
        lemma_parsed_has_id(lines, id);
    }
}

/// A malformed line: fewer than four tab-separated fields. `line` is
/// the index of the first offending line; the whole load fails
/// atomically.
#[derive(Debug, PartialEq, Eq, Structural)]
pub struct ParseError {
    pub line: usize,
}

/// The compound store: records keyed by their id, with mapping
/// semantics (at most one record per id).
pub struct SourceChembl {
    data: Vec<EntryChembl>,
}

impl View for SourceChembl {
    type V = Seq<EntryModel>;

    closed spec fn view(&self) -> Seq<EntryModel> {
        entries_view(self.data@)
    }
}

impl SourceChembl {
    /// The store's invariant: it is a mapping, so ids are distinct.
    pub open spec fn wf(&self) -> bool {
        distinct_ids(self@)
    }

    /// Position of the record carrying `id`, scanning from the front.
    fn find_idx(&self, id: &String) -> (r: Option<usize>)
        ensures
            match r {
                Some(i) => i < self@.len() && self@[i as int].id == id@,
                None => !has_id(self@, id@),
            },
    {
        let mut i: usize = 0;
        while i < self.data.len()
            invariant
                i <= self@.len(),
                self@.len() == self.data@.len(),
                forall|j: int| 0 <= j < i ==> self@[j].id != id@,
            decreases self@.len() - i,
        {
            if self.data[i].chembl_id == *id {
                return Some(i);
            }
            i = i + 1;
        }
        None
    }

    /// Exact-match lookup by id; none when the id is absent.
    pub fn get(&self, id: &String) -> (r: Option<&EntryChembl>)
        requires
            self.wf(),
        ensures
            match r {
                Some(e) => spec_get(self@, id@) == Some(e@),
                None => spec_get(self@, id@) is None,
            },
    {
        match self.find_idx(id) {
            Some(i) => {
                proof {
                    lemma_stored_entry_found(self@, i as int);
                }
                Some(&self.data[i])
            },
            None => None,
        }
    }

    /// The count of currently loaded records.
    pub fn len(&self) -> (r: usize)
        ensures
            r == self@.len(),
    {
        self.data.len()
    }

    /// The entire current record collection; callers must not assume
    /// any ordering.
    pub fn get_all(&self) -> (r: &Vec<EntryChembl>)
        ensures
            entries_view(r@) == self@,
    {
        &self.data
    }

    /// Mapping-style insertion: replaces the record with the same id in
    /// place, or appends a record with a fresh id.
    fn insert(&mut self, e: EntryChembl)
        requires
            old(self).wf(),
        ensures
            final(self)@ == insert_entry(old(self)@, e@),
            final(self).wf(),
    {
        match self.find_idx(&e.chembl_id) {
            Some(i) => {
                proof {
                    lemma_stored_entry_found(old(self)@, i as int);
                }
                self.data.set(i, e);
                proof {
                    assert(self@ =~= old(self)@.update(i as int, e@));
                }
            },
            None => {
                self.data.push(e);
                proof {
                    assert(self@ =~= old(self)@.push(e@));
                }
            },
        }
    }

    /// Drops the record under the header-sentinel id, if any: it can
    /// only come from the dump's own header row ingested as data.
    fn sanitize(&mut self)
        requires
            old(self).wf(),
        ensures
            final(self)@ == remove_id(old(self)@, sentinel_id()),
            final(self).wf(),
    {
        let key: String = "chembl_id".to_owned();
        match self.find_idx(&key) {
            Some(i) => {
                proof {
                    lemma_stored_entry_found(old(self)@, i as int);
                }
                let _ = self.data.remove(i);
                proof {
                    assert(self@ =~= old(self)@.remove(i as int));
                    assert forall|a: int, b: int| 0 <= a < b < self@.len() implies self@[a].id
                        != self@[b].id by {
                        let ga: int = if a < i { a } else { a + 1 };
                        let gb: int = if b < i { b } else { b + 1 };
                        assert(self@[a] == old(self)@[ga]);
                        assert(self@[b] == old(self)@[gb]);
                    }
                }
            },
            None => {
            },
        }
    }

    /// Clears the store and repopulates it from the given lines, one
    /// record per line, keyed by the first field; a later line with a
    /// colliding id wins. The header-sentinel record is dropped
    /// afterwards. On the first malformed line (fewer than four
    /// tab-separated fields) the load fails atomically and the store is
    /// left empty.
    pub fn load(&mut self, lines: &Vec<String>) -> (r: Result<(), ParseError>)
        ensures
            match r {
                Ok(()) => {
                    &&& forall|k: int| 0 <= k < lines@.len() ==> line_wf(#[trigger] lines@[k]@)
                    &&& final(self)@ == loaded_model(strs_view(lines@))
                    &&& final(self).wf()
                },
                Err(e) => {
                    &&& e.line < lines@.len()
                    &&& !line_wf(lines@[e.line as int]@)
                    &&& forall|k: int| 0 <= k < e.line ==> line_wf(#[trigger] lines@[k]@)
                    &&& final(self)@ == Seq::<EntryModel>::empty()
                },
            },
    {
        self.data = Vec::new();
        proof {
            assert(self@ =~= Seq::<EntryModel>::empty());
            assert(strs_view(lines@).subrange(0, 0) =~= Seq::<Seq<char>>::empty());
        }
        let mut k: usize = 0;
        while k < lines.len()
            invariant
                k <= lines@.len(),
                forall|j: int| 0 <= j < k ==> line_wf(#[trigger] lines@[j]@),
                self@ == parsed_lines(strs_view(lines@).subrange(0, k as int)),
                self.wf(),
            decreases lines@.len() - k,
        {
            let fields = split_tabs(lines[k].as_str());
            if fields.len() < 4 {
                self.data = Vec::new();
                proof {
                    assert(self@ =~= Seq::<EntryModel>::empty());
                    assert(spec_split(lines@[k as int]@).len() == fields@.len());
                }
                return Err(ParseError { line: k });
            }
            let e = EntryChembl::new(fields);
            proof {
                assert(spec_split(lines@[k as int]@).len() == fields@.len());
                assert(fields@[0]@ == strs_view(fields@)[0]);
                assert(fields@[1]@ == strs_view(fields@)[1]);
                assert(fields@[2]@ == strs_view(fields@)[2]);
                assert(fields@[3]@ == strs_view(fields@)[3]);
                assert(e@ =~= line_entry(lines@[k as int]@));
            }
            self.insert(e);
            proof {
                let full = strs_view(lines@);
                assert(full.subrange(0, k as int + 1).drop_last() =~= full.subrange(0, k as int));
                assert(full.subrange(0, k as int + 1).last() == lines@[k as int]@);
            }
            k = k + 1;
        }
        proof {
            assert(strs_view(lines@).subrange(0, lines@.len() as int) =~= strs_view(lines@));
        }
        self.sanitize();
        Ok(())
    }

    /// All SMILES strings and all ids, as two parallel vectors: the
    /// i-th SMILES belongs to the record found under the i-th id. Both
    /// follow one traversal of the store; callers must not assume any
    /// ordering.
    pub fn get_smiles_id_pairs(&self) -> (r: (Vec<String>, Vec<String>))
        requires
            self.wf(),
        ensures
            r.0@.len() == self@.len(),
            r.1@.len() == self@.len(),
            forall|i: int|
                0 <= i < self@.len() ==> r.0@[i]@ == self@[i].smiles && r.1@[i]@ == self@[i].id,
            forall|i: int| 0 <= i < self@.len() ==> spec_get(self@, r.1@[i]@) == Some(self@[i]),
    {
        let mut smiles: Vec<String> = Vec::new();
        let mut ids: Vec<String> = Vec::new();
        let mut i: usize = 0;
        while i < self.data.len()
            invariant
                i <= self.data@.len(),
                self@.len() == self.data@.len(),
                smiles@.len() == i,
                ids@.len() == i,
                forall|j: int|
                    0 <= j < i ==> smiles@[j]@ == self@[j].smiles && ids@[j]@ == self@[j].id,
            decreases self.data@.len() - i,
        {
            smiles.push(self.data[i].smiles.clone());
            ids.push(self.data[i].chembl_id.clone());
            i = i + 1;
        }
        proof {
            assert forall|j: int| 0 <= j < self@.len() implies spec_get(self@, ids@[j]@) == Some(
                self@[j],
            ) by {
                lemma_stored_entry_found(self@, j);
            }
        }
        (smiles, ids)
    }

    /// A sample of `size` distinct records drawn without replacement by
    /// a partial shuffle of the record positions; when `size` exceeds
    /// the record count, all records are returned. The store is not
    /// mutated.
    pub fn choices(&self, size: usize) -> (r: Vec<EntryChembl>)
        requires
            self.wf(),
        ensures
            size <= self@.len() ==> r@.len() == size,
            size > self@.len() ==> entries_view(r@) == self@,
            forall|i: int| 0 <= i < r@.len() ==> spec_get(self@, r@[i]@.id) == Some(r@[i]@),
            distinct_ids(entries_view(r@)),
    {
        let n: usize = self.data.len();
        if size >= n {
            let mut out: Vec<EntryChembl> = Vec::new();
            let mut i: usize = 0;
            while i < n
                invariant
                    n == self.data@.len(),
                    n == self@.len(),
                    i <= n,
                    out@.len() == i,
                    forall|j: int| 0 <= j < i ==> out@[j]@ == self@[j],
                decreases n - i,
            {
                out.push(self.data[i].clone());
                i = i + 1;
            }
            proof {
                assert(entries_view(out@) =~= self@);
                assert forall|j: int| 0 <= j < out@.len() implies spec_get(self@, out@[j]@.id)
                    == Some(out@[j]@) by {
                    lemma_stored_entry_found(self@, j);
                }
            }
            return out;
        }
        let mut idx: Vec<usize> = Vec::new();
        let mut i: usize = 0;
        while i < n
            invariant
                i <= n,
                idx@.len() == i,
                forall|j: int| 0 <= j < i ==> idx@[j] == j,
            decreases n - i,
        {
            idx.push(i);
            i = i + 1;
        }
        let mut out: Vec<EntryChembl> = Vec::new();
        let mut t: usize = 0;
        while t < size
            invariant
                size < n,
                n == self.data@.len(),
                n == self@.len(),
                self.wf(),
                t <= size,
                idx@.len() == n,
                forall|a: int| 0 <= a < n ==> idx@[a] < n,
                forall|a: int, b: int| 0 <= a < b < n ==> idx@[a] != idx@[b],
                out@.len() == t,
                forall|a: int| 0 <= a < t ==> out@[a]@ == self@[idx@[a] as int],
            decreases size - t,
        {
            let j = t + rand_below(n - t);
            let tmp = idx[t];
            let idx_j = idx[j];
            idx.set(t, idx_j);
            idx.set(j, tmp);
            out.push(self.data[idx_j].clone());
            t = t + 1;
        }
        proof {
            assert forall|a: int| 0 <= a < out@.len() implies spec_get(self@, out@[a]@.id) == Some(
                out@[a]@,
            ) by {
                lemma_stored_entry_found(self@, idx@[a] as int);
            }
            assert forall|a: int, b: int|
                0 <= a < b < entries_view(out@).len() implies entries_view(out@)[a].id
                != entries_view(out@)[b].id by {
                assert(idx@[a] != idx@[b]);
            }
        }
        out
    }

    /// Builds a store directly from the lines of a dump file: an empty
    /// store immediately populated by `load`.
    pub fn new(lines: &Vec<String>) -> (r: Result<Self, ParseError>)
        ensures
            match r {
                Ok(s) => {
                    &&& forall|k: int| 0 <= k < lines@.len() ==> line_wf(#[trigger] lines@[k]@)
                    &&& s@ == loaded_model(strs_view(lines@))
                    &&& s.wf()
                },
                Err(e) => {
                    &&& e.line < lines@.len()
                    &&& !line_wf(lines@[e.line as int]@)
                    &&& forall|k: int| 0 <= k < e.line ==> line_wf(#[trigger] lines@[k]@)
                },
            },
    {
        let mut s = SourceChembl { data: Vec::new() };
        match s.load(lines) {
            Ok(()) => Ok(s),
            Err(e) => Err(e),
        }
    }
}

} // verus!
