use vstd::prelude::*;

verus! {

/// One declared dependency: the target mod identifier and whether the
/// dependency is required (`mandatory`) or merely optional.
pub struct Dep {
    pub target: String,
    pub mandatory: bool,
}

/// Mathematical model of a `Dep`.
#[verifier::ext_equal]
pub ghost struct DepModel {
    pub target: Seq<char>,
    pub mandatory: bool,
}

impl View for Dep {
    type V = DepModel;

    open spec fn view(&self) -> DepModel {
        DepModel { target: self.target@, mandatory: self.mandatory }
    }
}

impl DeepView for Dep {
    type V = DepModel;

    open spec fn deep_view(&self) -> DepModel {
        self@
    }
}

/// The dependency declarations of one mod identifier inside a manifest.
pub struct DepList {
    pub mod_id: String,
    pub deps: Vec<Dep>,
}

/// Mathematical model of a `DepList`.
#[verifier::ext_equal]
pub ghost struct DepListModel {
    pub mod_id: Seq<char>,
    pub deps: Seq<DepModel>,
}

impl DeepView for DepList {
    type V = DepListModel;

    open spec fn deep_view(&self) -> DepListModel {
        DepListModel { mod_id: self.mod_id@, deps: self.deps.deep_view() }
    }
}

/// A parsed manifest: the declared mod identifiers and, keyed by mod
/// identifier, the declared dependency lists.
pub struct Manifest {
    pub mods: Vec<String>,
    pub deps: Vec<DepList>,
}

/// Mathematical model of a `Manifest`.
#[verifier::ext_equal]
pub ghost struct ManifestModel {
    pub mods: Seq<Seq<char>>,
    pub deps: Seq<DepListModel>,
}

impl DeepView for Manifest {
    type V = ManifestModel;

    open spec fn deep_view(&self) -> ManifestModel {
        ManifestModel { mods: self.mods.deep_view(), deps: self.deps.deep_view() }
    }
}

/// One inventory entry: the file it came from, the declared mod identifier
/// (empty for a file whose manifest could not be read) and the declared
/// dependencies of that mod.
pub struct ModRecord {
    pub source: String,
    pub mod_id: String,
    pub deps: Vec<Dep>,
}

/// Mathematical model of a `ModRecord`.
#[verifier::ext_equal]
pub ghost struct RecordModel {
    pub source: Seq<char>,
    pub mod_id: Seq<char>,
    pub deps: Seq<DepModel>,
}

impl DeepView for ModRecord {
    type V = RecordModel;

    open spec fn deep_view(&self) -> RecordModel {
        RecordModel { source: self.source@, mod_id: self.mod_id@, deps: self.deps.deep_view() }
    }
}

/// The outcome of loading one packaged file: its path, and its manifest if
/// one could be extracted and parsed.
pub struct LoadOutcome {
    pub path: String,
    pub manifest: Option<Manifest>,
}

/// Mathematical model of a `LoadOutcome`.
#[verifier::ext_equal]
pub ghost struct LoadOutcomeModel {
    pub path: Seq<char>,
    pub manifest: Option<ManifestModel>,
}

impl DeepView for LoadOutcome {
    type V = LoadOutcomeModel;

    open spec fn deep_view(&self) -> LoadOutcomeModel {
        LoadOutcomeModel { path: self.path@, manifest: self.manifest.deep_view() }
    }
}

/// The dependency list declared for `id`: the entries of the first list
/// keyed by `id`, or the empty sequence when no list carries that key.
pub open spec fn lookup_deps(lists: Seq<DepListModel>, id: Seq<char>) -> Seq<DepModel>
    decreases lists.len(),
{
    if lists.len() == 0 {
        Seq::empty()
    } else if lists[0].mod_id == id {
        lists[0].deps
    } else {
        lookup_deps(lists.drop_first(), id)
    }
}

/// The records that one successfully parsed manifest contributes: one per
/// declared mod, each carrying that mod's declared dependency list.
pub open spec fn manifest_records(source: Seq<char>, m: ManifestModel) -> Seq<RecordModel> {
    Seq::new(
        m.mods.len(),
        |i: int|
            RecordModel {
                source: source,
                mod_id: m.mods[i],
                deps: lookup_deps(m.deps, m.mods[i]),
            },
    )
}

/// The sentinel record for a file whose manifest could not be read: an
/// empty mod identifier and no dependencies.
pub open spec fn failure_record_spec(source: Seq<char>) -> RecordModel {
    RecordModel { source: source, mod_id: Seq::empty(), deps: Seq::empty() }
}

/// The records contributed by one load outcome.
pub open spec fn outcome_records(o: LoadOutcomeModel) -> Seq<RecordModel> {
    match o.manifest {
        Some(m) => manifest_records(o.path, m),
        None => seq![failure_record_spec(o.path)],
    }
}

/// The full inventory: the records of every load outcome, flattened in
/// order.
pub open spec fn inventory_spec(outcomes: Seq<LoadOutcomeModel>) -> Seq<RecordModel>
    decreases outcomes.len(),
{
    if outcomes.len() == 0 {
        Seq::empty()
    } else {
        inventory_spec(outcomes.drop_last()) + outcome_records(outcomes.last())
    }
}

/// `lookup_deps` skips past any prefix of lists whose keys all differ
/// from `id`.
proof fn lemma_lookup_skip(lists: Seq<DepListModel>, id: Seq<char>, k: int)
    requires
        0 <= k <= lists.len(),
        forall|i: int| 0 <= i < k ==> lists[i].mod_id != id,
    ensures
        lookup_deps(lists, id) == lookup_deps(lists.skip(k), id),
    decreases k,
{
    if k == 0 {
        assert(lists.skip(0) =~= lists);
    } else {
        lemma_lookup_skip(lists, id, k - 1);
        assert(lists.skip(k - 1).drop_first() =~= lists.skip(k));
        assert(lists.skip(k - 1)[0] == lists[k - 1]);
    }
}

/// Looks up the dependency list declared for `id`, returning a fresh copy.
fn find_deps(lists: &Vec<DepList>, id: &String) -> (r: Vec<Dep>)
    ensures
        r.deep_view() == lookup_deps(lists.deep_view(), id@),
{
    let mut k: usize = 0;
    while k < lists.len()
        invariant
            k <= lists.len(),
            forall|i: int| 0 <= i < k ==> lists.deep_view()[i].mod_id != id@,
        decreases lists.len() - k,
    {
        if lists[k].mod_id == *id {
            let r = copy_deps(&lists[k].deps);
            proof {
                lemma_lookup_skip(lists.deep_view(), id@, k as int);
                assert(lists.deep_view().skip(k as int)[0] == lists.deep_view()[k as int]);
                assert(lists.deep_view()[k as int] == lists@[k as int].deep_view());
            }
            return r;
        }
        proof {
            assert(lists.deep_view()[k as int] == lists@[k as int].deep_view());
        }
        k = k + 1;
    }
    proof {
        lemma_lookup_skip(lists.deep_view(), id@, lists@.len() as int);
        assert(lists.deep_view().skip(lists@.len() as int) =~= Seq::<DepListModel>::empty());
    }
    let r: Vec<Dep> = Vec::new();
    proof {
        assert(r.deep_view() =~= Seq::<DepModel>::empty());
    }
    r
}

/// Copies a dependency list element by element.
fn copy_deps(deps: &Vec<Dep>) -> (r: Vec<Dep>)
    ensures
        r.deep_view() == deps.deep_view(),
{
    let mut r: Vec<Dep> = Vec::new();
    let mut k: usize = 0;
    while k < deps.len()
        invariant
            k <= deps.len(),
            r@.len() == k,
            forall|i: int| 0 <= i < k ==> r@[i].deep_view() == deps@[i].deep_view(),
        decreases deps.len() - k,
    {
        r.push(Dep { target: deps[k].target.clone(), mandatory: deps[k].mandatory });
        k = k + 1;
    }
    proof {
        assert(r.deep_view() =~= deps.deep_view());
    }
    r
}

/// The records one successfully parsed manifest contributes to the
/// inventory: one per declared mod, with that mod's declared dependencies
/// (the empty list when the manifest declares none for it).
pub fn records_for_manifest(source: &String, m: &Manifest) -> (r: Vec<ModRecord>)
    ensures
        r.deep_view() == manifest_records(source@, m.deep_view()),
{
    let mut r: Vec<ModRecord> = Vec::new();
    let mut k: usize = 0;
    while k < m.mods.len()
        invariant
            k <= m.mods.len(),
            r@.len() == k,
            forall|i: int| 0 <= i < k ==> r@[i].deep_view() == manifest_records(
                source@,
                m.deep_view(),
            )[i],
        decreases m.mods.len() - k,
    {
        let deps = find_deps(&m.deps, &m.mods[k]);
        r.push(ModRecord { source: source.clone(), mod_id: m.mods[k].clone(), deps });
        proof {
            assert(m.deep_view().mods[k as int] == m.mods@[k as int]@);
            assert(r@[k as int].deep_view() =~= manifest_records(source@, m.deep_view())[k as int]);
        }
        k = k + 1;
    }
    proof {
        assert(r.deep_view() =~= manifest_records(source@, m.deep_view()));
    }
    r
}

/// The sentinel record emitted for a file whose manifest could not be
/// read: the offending path, an empty mod identifier, no dependencies.
pub fn failure_record(source: String) -> (r: ModRecord)
    ensures
        r.deep_view() == failure_record_spec(source@),
{
    let r = ModRecord { source, mod_id: String::new(), deps: Vec::new() };
    proof {
        assert(r.deep_view() =~= failure_record_spec(r.source@));
    }
    r
}

/// Flattens the load outcomes of a directory scan into the inventory: every
/// parsed manifest contributes one record per declared mod, and every
/// failed file contributes exactly one sentinel record.
pub fn build_inventory(outcomes: &Vec<LoadOutcome>) -> (r: Vec<ModRecord>)
    ensures
        r.deep_view() == inventory_spec(outcomes.deep_view()),
{
    let mut r: Vec<ModRecord> = Vec::new();
    let mut k: usize = 0;
    proof {
        assert(r.deep_view() =~= inventory_spec(outcomes.deep_view().take(0)));
    }
    while k < outcomes.len()
        invariant
            k <= outcomes.len(),
            r.deep_view() == inventory_spec(outcomes.deep_view().take(k as int)),
        decreases outcomes.len() - k,
    {
        let ghost prev = r.deep_view();
        match &outcomes[k].manifest {
            Some(m) => {
                let mut recs = records_for_manifest(&outcomes[k].path, m);
                r.append(&mut recs);
            },
            None => {
                let s = failure_record(outcomes[k].path.clone());
                r.push(s);
            },
        }
        proof {
            let ghost dv = outcomes.deep_view();
            assert(dv.take(k as int + 1).drop_last() =~= dv.take(k as int));
            assert(dv.take(k as int + 1).last() == dv[k as int]);
            assert(dv[k as int] == outcomes@[k as int].deep_view());
            assert(r.deep_view() =~= prev + outcome_records(dv[k as int]));
        }
        k = k + 1;
    }
    proof {
        assert(outcomes.deep_view().take(outcomes@.len() as int) =~= outcomes.deep_view());
    }
    r
}

} // verus!
