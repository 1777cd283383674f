//! The service registry: data for one advertised service, and the indexed,
//! invariant-preserving collection of all registered services.
use vstd::prelude::*;

use crate::name::valid_dns_name;
use std::collections::HashMap;

verus! {

broadcast use vstd::std_specs::hash::group_hash_axioms;

/// Data for a single advertised service.
pub struct ServiceData {
    /// Fully-qualified instance name, `<instance>.<type>.local`.
    pub name: String,
    /// Fully-qualified service type, `_<proto>._<transport>.local`.
    pub typ: String,
    /// Port the service listens on.
    pub port: u16,
    /// Pre-encoded TXT record bytes.
    pub txt: Vec<u8>,
}

/// Mathematical image of a `ServiceData`.
pub struct ServiceDataView {
    pub name: Seq<char>,
    pub typ: Seq<char>,
    pub port: u16,
    pub txt: Seq<u8>,
}

impl View for ServiceData {
    type V = ServiceDataView;

    open spec fn view(&self) -> ServiceDataView {
        ServiceDataView { name: self.name@, typ: self.typ@, port: self.port, txt: self.txt@ }
    }
}

impl DeepView for ServiceData {
    type V = ServiceDataView;

    open spec fn deep_view(&self) -> ServiceDataView {
        self.view()
    }
}

impl Clone for ServiceData {
    fn clone(&self) -> (r: Self)
        ensures
            r@ == self@,
    {
        ServiceData {
            name: self.name.clone(),
            typ: self.typ.clone(),
            port: self.port,
            txt: self.txt.clone(),
        }
    }
}

/// A service record the registry accepts: well-formed names and a TXT
/// payload that fits in one record.
pub open spec fn svc_wf(s: ServiceDataView) -> bool {
    &&& valid_dns_name(s.name)
    &&& valid_dns_name(s.typ)
    &&& 1 <= s.txt.len() <= 0xffff
}

/// Decides `svc_wf` for a concrete record.
pub fn service_is_wf(svc: &ServiceData) -> (r: bool)
    ensures
        r == svc_wf(svc@),
{
    crate::name::name_is_valid(svc.name.as_str()) && crate::name::name_is_valid(svc.typ.as_str())
        && 1 <= svc.txt.len() && svc.txt.len() <= 0xffff
}

/// Mathematical image of the registry: the three indices of the data model,
/// plus the service types in first-registration order.
#[verifier::ext_equal]
pub struct RegistryView {
    pub hostname: Seq<char>,
    pub by_id: Map<usize, ServiceDataView>,
    pub by_name: Map<Seq<char>, usize>,
    pub by_type: Map<Seq<char>, Seq<usize>>,
    pub types: Seq<Seq<char>>,
}

/// The three-way index invariant: ids, instance names and type buckets
/// reference each other consistently, and every stored record is well formed.
pub open spec fn index_invariant(v: RegistryView) -> bool {
    &&& valid_dns_name(v.hostname)
    &&& forall|id: usize| #[trigger] v.by_id.contains_key(id) ==> {
        &&& svc_wf(v.by_id[id])
        &&& v.by_name.contains_key(v.by_id[id].name)
        &&& v.by_name[v.by_id[id].name] == id
        &&& v.by_type.contains_key(v.by_id[id].typ)
        &&& v.by_type[v.by_id[id].typ].contains(id)
    }
    &&& forall|n: Seq<char>| #[trigger] v.by_name.contains_key(n) ==> v.by_id.contains_key(
        v.by_name[n],
    ) && v.by_id[v.by_name[n]].name == n
    &&& forall|t: Seq<char>| #[trigger] v.by_type.contains_key(t) ==> {
        &&& v.by_type[t].no_duplicates()
        &&& forall|j: int|
            0 <= j < v.by_type[t].len() ==> v.by_id.contains_key(#[trigger] v.by_type[t][j])
                && v.by_id[v.by_type[t][j]].typ == t
    }
    &&& v.types.no_duplicates()
    &&& forall|t: Seq<char>| #[trigger] v.by_type.contains_key(t) <==> v.types.contains(t)
}

/// The bucket of ids registered under type `t`, or empty.
pub open spec fn bucket_of(v: RegistryView, t: Seq<char>) -> Seq<usize> {
    if v.by_type.contains_key(t) {
        v.by_type[t]
    } else {
        Seq::empty()
    }
}

/// The service registered under instance name `n`, if any.
pub open spec fn service_named(v: RegistryView, n: Seq<char>) -> Option<ServiceDataView> {
    if v.by_name.contains_key(n) {
        Some(v.by_id[v.by_name[n]])
    } else {
        None
    }
}

/// The types of `ts` that currently have at least one registered service.
pub open spec fn nonempty_types_of(v: RegistryView, ts: Seq<Seq<char>>) -> Seq<Seq<char>> {
    ts.filter(|t: Seq<char>| bucket_of(v, t).len() > 0)
}

/// The service types with at least one registered service, in
/// first-registration order.
pub open spec fn nonempty_types(v: RegistryView) -> Seq<Seq<char>> {
    nonempty_types_of(v, v.types)
}

/// The services of type `t`, in bucket order.
pub open spec fn services_of_type(v: RegistryView, t: Seq<char>) -> Seq<ServiceDataView> {
    bucket_of(v, t).map_values(|id: usize| v.by_id[id])
}

/// How `register` changes the registry's image when it assigns id `id`.
pub open spec fn register_effect(v: RegistryView, id: usize, svc: ServiceDataView) -> RegistryView {
    RegistryView {
        hostname: v.hostname,
        by_id: v.by_id.insert(id, svc),
        by_name: v.by_name.insert(svc.name, id),
        by_type: v.by_type.insert(svc.typ, bucket_of(v, svc.typ).push(id)),
        types: if v.by_type.contains_key(svc.typ) {
            v.types
        } else {
            v.types.push(svc.typ)
        },
    }
}

/// The ids of `b` other than `id`, in order.
pub open spec fn bucket_without(b: Seq<usize>, id: usize) -> Seq<usize> {
    b.filter(|x: usize| x != id)
}

/// How `unregister` changes the registry's image. The type bucket keeps
/// its slot even when it becomes empty.
pub open spec fn unregister_effect(v: RegistryView, id: usize) -> RegistryView {
    let svc = v.by_id[id];
    RegistryView {
        hostname: v.hostname,
        by_id: v.by_id.remove(id),
        by_name: v.by_name.remove(svc.name),
        by_type: v.by_type.insert(svc.typ, bucket_without(v.by_type[svc.typ], id)),
        types: v.types,
    }
}

// ---- association-list views -------------------------------------------------

pub open spec fn name_keys(s: Seq<(String, usize)>) -> Seq<Seq<char>> {
    s.map_values(|p: (String, usize)| p.0@)
}

pub open spec fn name_map(s: Seq<(String, usize)>) -> Map<Seq<char>, usize>
    decreases s.len(),
{
    if s.len() == 0 {
        Map::empty()
    } else {
        name_map(s.drop_last()).insert(s.last().0@, s.last().1)
    }
}

pub open spec fn type_keys(s: Seq<(String, Vec<usize>)>) -> Seq<Seq<char>> {
    s.map_values(|p: (String, Vec<usize>)| p.0@)
}

pub open spec fn type_map(s: Seq<(String, Vec<usize>)>) -> Map<Seq<char>, Seq<usize>>
    decreases s.len(),
{
    if s.len() == 0 {
        Map::empty()
    } else {
        type_map(s.drop_last()).insert(s.last().0@, s.last().1@)
    }
}

proof fn lemma_name_map_dom(s: Seq<(String, usize)>)
    ensures
        forall|n: Seq<char>| #[trigger] name_map(s).contains_key(n) <==> name_keys(s).contains(n),
    decreases s.len(),
{
    if s.len() > 0 {
        let d = s.drop_last();
        lemma_name_map_dom(d);
        assert forall|n: Seq<char>| #[trigger] name_map(s).contains_key(n) implies name_keys(
            s,
        ).contains(n) by {
            if n == s.last().0@ {
                assert(s.last() == s[s.len() - 1]);
                assert(name_keys(s)[s.len() - 1] == n);
            } else {
                assert(name_map(d).contains_key(n));
                assert(name_keys(d).contains(n));
                let j = choose|j: int| 0 <= j < name_keys(d).len() && name_keys(d)[j] == n;
                assert(name_keys(d)[j] == d[j].0@);
                assert(d[j] == s[j]);
                assert(name_keys(s)[j] == n);
            }
        }
        assert forall|n: Seq<char>| name_keys(s).contains(n) implies #[trigger] name_map(
            s,
        ).contains_key(n) by {
            let j = choose|j: int| 0 <= j < name_keys(s).len() && name_keys(s)[j] == n;
            if j < s.len() - 1 {
                assert(d[j] == s[j]);
                assert(name_keys(d)[j] == n);
                assert(name_keys(d).contains(n));
                assert(name_map(d).contains_key(n));
            } else {
                assert(s.last() == s[s.len() - 1]);
                assert(n == s.last().0@);
            }
        }
    }
}

proof fn lemma_name_map_at(s: Seq<(String, usize)>, i: int)
    requires
        name_keys(s).no_duplicates(),
        0 <= i < s.len(),
    ensures
        name_map(s).contains_key(s[i].0@),
        name_map(s)[s[i].0@] == s[i].1,
    decreases s.len(),
{
    if i == s.len() - 1 {
    } else {
        assert(name_keys(s.drop_last()) =~= name_keys(s).drop_last());
        assert(s.drop_last()[i] == s[i]);
        lemma_name_map_at(s.drop_last(), i);
        assert(name_keys(s)[i] != name_keys(s)[s.len() - 1]);
        assert(s[i].0@ != s.last().0@);
    }
}

proof fn lemma_name_map_remove(s: Seq<(String, usize)>, i: int)
    requires
        name_keys(s).no_duplicates(),
        0 <= i < s.len(),
    ensures
        name_map(s.remove(i)) == name_map(s).remove(s[i].0@),
        name_keys(s.remove(i)) =~= name_keys(s).remove(i),
        name_keys(s.remove(i)).no_duplicates(),
    decreases s.len(),
{
    assert(name_keys(s.remove(i)) =~= name_keys(s).remove(i));
    name_keys(s).remove_ensures(i);
    assert(name_keys(s.remove(i)).no_duplicates());
    lemma_name_map_dom(s.drop_last());
    if i == s.len() - 1 {
        assert(s.remove(i) =~= s.drop_last());
        assert(!name_keys(s.drop_last()).contains(s[i].0@)) by {
            if name_keys(s.drop_last()).contains(s[i].0@) {
                let d = s.drop_last();
                let j = choose|j: int| 0 <= j < name_keys(d).len() && name_keys(d)[j] == s[i].0@;
                assert(d[j] == s[j]);
                assert(name_keys(s)[j] == s[i].0@);
                assert(name_keys(s)[i] == s[i].0@);
            }
        }
        assert(!name_map(s.drop_last()).contains_key(s[i].0@));
        assert(name_map(s.drop_last()) =~= name_map(s).remove(s[i].0@));
    } else {
        assert(name_keys(s.drop_last()) =~= name_keys(s).drop_last());
        lemma_name_map_remove(s.drop_last(), i);
        assert(s.remove(i).drop_last() =~= s.drop_last().remove(i));
        assert(s.remove(i).last() == s.last());
        assert(name_map(s.remove(i)) == name_map(s.drop_last().remove(i)).insert(
            s.last().0@,
            s.last().1,
        ));
        assert(name_keys(s)[i] != name_keys(s)[s.len() - 1]);
        assert(s[i].0@ != s.last().0@);
        assert(name_map(s.drop_last()).remove(s[i].0@).insert(s.last().0@, s.last().1) =~= name_map(
            s.drop_last(),
        ).insert(s.last().0@, s.last().1).remove(s[i].0@));
    }
}

proof fn lemma_type_map_dom(s: Seq<(String, Vec<usize>)>)
    ensures
        forall|t: Seq<char>| #[trigger] type_map(s).contains_key(t) <==> type_keys(s).contains(t),
    decreases s.len(),
{
    if s.len() > 0 {
        let d = s.drop_last();
        lemma_type_map_dom(d);
        assert forall|t: Seq<char>| #[trigger] type_map(s).contains_key(t) implies type_keys(
            s,
        ).contains(t) by {
            if t == s.last().0@ {
                assert(s.last() == s[s.len() - 1]);
                assert(type_keys(s)[s.len() - 1] == t);
            } else {
                assert(type_map(d).contains_key(t));
                assert(type_keys(d).contains(t));
                let j = choose|j: int| 0 <= j < type_keys(d).len() && type_keys(d)[j] == t;
                assert(type_keys(d)[j] == d[j].0@);
                assert(d[j] == s[j]);
                assert(type_keys(s)[j] == t);
            }
        }
        assert forall|t: Seq<char>| type_keys(s).contains(t) implies #[trigger] type_map(
            s,
        ).contains_key(t) by {
            let j = choose|j: int| 0 <= j < type_keys(s).len() && type_keys(s)[j] == t;
            if j < s.len() - 1 {
                assert(d[j] == s[j]);
                assert(type_keys(d)[j] == t);
                assert(type_keys(d).contains(t));
                assert(type_map(d).contains_key(t));
            } else {
                assert(s.last() == s[s.len() - 1]);
                assert(t == s.last().0@);
            }
        }
    }
}

proof fn lemma_type_map_at(s: Seq<(String, Vec<usize>)>, i: int)
    requires
        type_keys(s).no_duplicates(),
        0 <= i < s.len(),
    ensures
        type_map(s).contains_key(s[i].0@),
        type_map(s)[s[i].0@] == s[i].1@,
    decreases s.len(),
{
    if i == s.len() - 1 {
    } else {
        assert(type_keys(s.drop_last()) =~= type_keys(s).drop_last());
        assert(s.drop_last()[i] == s[i]);
        lemma_type_map_at(s.drop_last(), i);
        assert(type_keys(s)[i] != type_keys(s)[s.len() - 1]);
        assert(s[i].0@ != s.last().0@);
    }
}

proof fn lemma_type_map_remove(s: Seq<(String, Vec<usize>)>, i: int)
    requires
        type_keys(s).no_duplicates(),
        0 <= i < s.len(),
    ensures
        type_map(s.remove(i)) == type_map(s).remove(s[i].0@),
        type_keys(s.remove(i)) =~= type_keys(s).remove(i),
        type_keys(s.remove(i)).no_duplicates(),
    decreases s.len(),
{
    assert(type_keys(s.remove(i)) =~= type_keys(s).remove(i));
    type_keys(s).remove_ensures(i);
    assert(type_keys(s.remove(i)).no_duplicates());
    lemma_type_map_dom(s.drop_last());
    if i == s.len() - 1 {
        assert(s.remove(i) =~= s.drop_last());
        assert(!type_keys(s.drop_last()).contains(s[i].0@)) by {
            if type_keys(s.drop_last()).contains(s[i].0@) {
                let d = s.drop_last();
                let j = choose|j: int| 0 <= j < type_keys(d).len() && type_keys(d)[j] == s[i].0@;
                assert(d[j] == s[j]);
                assert(type_keys(s)[j] == s[i].0@);
                assert(type_keys(s)[i] == s[i].0@);
            }
        }
        assert(!type_map(s.drop_last()).contains_key(s[i].0@));
        assert(type_map(s.drop_last()) =~= type_map(s).remove(s[i].0@));
    } else {
        assert(type_keys(s.drop_last()) =~= type_keys(s).drop_last());
        lemma_type_map_remove(s.drop_last(), i);
        assert(s.remove(i).drop_last() =~= s.drop_last().remove(i));
        assert(s.remove(i).last() == s.last());
        assert(type_map(s.remove(i)) == type_map(s.drop_last().remove(i)).insert(
            s.last().0@,
            s.last().1@,
        ));
        assert(type_keys(s)[i] != type_keys(s)[s.len() - 1]);
        assert(s[i].0@ != s.last().0@);
        assert(type_map(s.drop_last()).remove(s[i].0@).insert(s.last().0@, s.last().1@)
            =~= type_map(s.drop_last()).insert(s.last().0@, s.last().1@).remove(s[i].0@));
    }
}

proof fn lemma_type_map_insert_at(s: Seq<(String, Vec<usize>)>, i: int, p: (String, Vec<usize>))
    requires
        type_keys(s).no_duplicates(),
        0 <= i <= s.len(),
        !type_keys(s).contains(p.0@),
    ensures
        type_map(s.insert(i, p)) == type_map(s).insert(p.0@, p.1@),
        type_keys(s.insert(i, p)) =~= type_keys(s).insert(i, p.0@),
        type_keys(s.insert(i, p)).no_duplicates(),
    decreases s.len(),
{
    lemma_type_map_dom(s);
    assert(type_keys(s.insert(i, p)) =~= type_keys(s).insert(i, p.0@));
    type_keys(s).insert_ensures(i, p.0@);
    assert forall|a: int, b: int|
        0 <= a < b < type_keys(s.insert(i, p)).len() implies type_keys(s.insert(i, p))[a]
        != type_keys(s.insert(i, p))[b] by {
        let ks = type_keys(s);
        let ks2 = ks.insert(i, p.0@);
        if a == i {
            assert(ks2[b] == ks[b - 1]);
            assert(ks.contains(ks[b - 1]));
        } else if b == i {
            assert(ks2[a] == ks[a]);
            assert(ks.contains(ks[a]));
        } else {
            let a0 = if a < i {
                a
            } else {
                a - 1
            };
            let b0 = if b < i {
                b
            } else {
                b - 1
            };
            assert(ks2[a] == ks[a0] && ks2[b] == ks[b0]);
        }
    }
    if i == s.len() {
        assert(s.insert(i, p) =~= s.push(p));
        assert(s.push(p).drop_last() =~= s);
        assert(type_map(s.insert(i, p)) == type_map(s).insert(p.0@, p.1@));
    } else {
        assert(s.insert(i, p).last() == s.last());
        assert(s.insert(i, p).drop_last() =~= s.drop_last().insert(i, p));
        assert(type_keys(s.drop_last()) =~= type_keys(s).drop_last());
        assert forall|j: int|
            0 <= j < s.drop_last().len() implies type_keys(s.drop_last())[j] != p.0@ by {
            assert(type_keys(s)[j] == type_keys(s.drop_last())[j]);
            assert(type_keys(s).contains(type_keys(s)[j]));
        }
        assert(!type_keys(s.drop_last()).contains(p.0@));
        lemma_type_map_insert_at(s.drop_last(), i, p);
        assert(type_keys(s)[s.len() - 1] != p.0@) by {
            assert(type_keys(s).contains(type_keys(s)[s.len() - 1]));
        }
        assert(type_map(s.drop_last()).insert(p.0@, p.1@).insert(s.last().0@, s.last().1@)
            =~= type_map(s.drop_last()).insert(s.last().0@, s.last().1@).insert(p.0@, p.1@));
    }
}

// ---- the registry -----------------------------------------------------------

/// The internal service registry, indexed by id, instance name and type.
pub struct ServicesInner {
    hostname: String,
    by_id: HashMap<usize, ServiceData>,
    by_type: Vec<(String, Vec<usize>)>,
    by_name: Vec<(String, usize)>,
    next_id: usize,
}

/// Image of a map of stored records.
pub open spec fn id_views(m: Map<usize, ServiceData>) -> Map<usize, ServiceDataView> {
    m.map_values(|s: ServiceData| s@)
}

impl View for ServicesInner {
    type V = RegistryView;

    closed spec fn view(&self) -> RegistryView {
        RegistryView {
            hostname: self.hostname@,
            by_id: id_views(self.by_id@),
            by_name: name_map(self.by_name@),
            by_type: type_map(self.by_type@),
            types: type_keys(self.by_type@),
        }
    }
}

/// Relies on rand::random for an arbitrary machine-generated value;
/// nothing is assumed about which value comes back.
#[verifier::external_body]
fn random_usize() -> usize {
    rand::random()
}

impl ServicesInner {
    /// Representation invariant plus the index invariant of the image.
    pub closed spec fn inv(&self) -> bool {
        &&& name_keys(self.by_name@).no_duplicates()
        &&& type_keys(self.by_type@).no_duplicates()
        &&& forall|id: usize| #[trigger] self@.by_id.contains_key(id) ==> id < self.next_id
        &&& index_invariant(self@)
    }

    /// The registry can still allocate a fresh id.
    pub closed spec fn id_space_open(&self) -> bool {
        self.next_id < usize::MAX
    }

    /// Whether the registry can still allocate a fresh id.
    #[verifier::when_used_as_spec(id_space_open)]
    pub fn can_register(&self) -> (r: bool)
        ensures
            r == self.id_space_open(),
    {
        self.next_id < usize::MAX
    }

    /// The three-way index invariant holds of every registry this module
    /// hands out or mutates.
    pub proof fn lemma_three_way_invariant(&self)
        requires
            self.inv(),
        ensures
            index_invariant(self@),
    {
    }

    /// Creates a new registry with the given hostname and empty indices.
    pub fn new(hostname: String) -> (r: ServicesInner)
        requires
            valid_dns_name(hostname@),
        ensures
            r.inv(),
            r.id_space_open(),
            r@.hostname == hostname@,
            r@.by_id == Map::<usize, ServiceDataView>::empty(),
            r@.by_name == Map::<Seq<char>, usize>::empty(),
            r@.by_type == Map::<Seq<char>, Seq<usize>>::empty(),
            r@.types == Seq::<Seq<char>>::empty(),
    {
        let r = ServicesInner {
            hostname,
            by_id: HashMap::new(),
            by_type: Vec::new(),
            by_name: Vec::new(),
            next_id: 0,
        };
        proof {
            assert(id_views(r.by_id@) =~~= Map::<usize, ServiceDataView>::empty());
            assert(name_map(r.by_name@) =~= Map::<Seq<char>, usize>::empty());
            assert(type_map(r.by_type@) =~~= Map::<Seq<char>, Seq<usize>>::empty());
            assert(type_keys(r.by_type@) =~= Seq::<Seq<char>>::empty());
            assert(name_keys(r.by_name@) =~= Seq::<Seq<char>>::empty());
        }
        r
    }

    /// Returns the hostname this responder answers for.
    pub fn get_hostname(&self) -> (r: &String)
        ensures
            r@ == self@.hostname,
    {
        &self.hostname
    }

    /// Number of registered services.
    pub fn len(&self) -> (r: usize)
        ensures
            r == self@.by_id.len(),
    {
        proof {
            assert(self@.by_id.dom() =~= self.by_id@.dom());
        }
        self.by_id.len()
    }

    /// Whether a service is registered under this id.
    pub fn contains_id(&self, id: usize) -> (r: bool)
        ensures
            r == self@.by_id.contains_key(id),
    {
        self.by_id.contains_key(&id)
    }

    /// Finds a service by its fully qualified instance name.
    pub fn find_by_name(&self, name: &String) -> (r: Option<&ServiceData>)
        requires
            self.inv(),
        ensures
            match r {
                Some(svc) => service_named(self@, name@) == Some(svc@),
                None => service_named(self@, name@) is None,
            },
    {
        let ghost s = self.by_name@;
        let mut i: usize = 0;
        while i < self.by_name.len()
            invariant
                i <= s.len(),
                s == self.by_name@,
                self.inv(),
                forall|j: int| 0 <= j < i ==> name_keys(s)[j] != name@,
            decreases s.len() - i,
        {
            if self.by_name[i].0 == *name {
                let id = self.by_name[i].1;
                proof {
                    lemma_name_map_at(s, i as int);
                    assert(self@.by_name.contains_key(name@));
                    assert(self@.by_name[name@] == id);
                    assert(self@.by_id.contains_key(id));
                }
                let found = self.by_id.get(&id);
                match found {
                    Some(svc) => {
                        return Some(svc);
                    },
                    None => {
                        proof {
                            assert(false);
                        }
                    },
                }
            }
            i = i + 1;
        }
        proof {
            lemma_name_map_dom(s);
            if name_keys(s).contains(name@) {
                let j = choose|j: int| 0 <= j < s.len() && name_keys(s)[j] == name@;
                assert(false);
            }
            assert(!self@.by_name.contains_key(name@));
        }
        None
    }

    /// Returns the services registered under the given type, in bucket order.
    pub fn find_by_type(&self, typ: &String) -> (r: FindByType)
        requires
            self.inv(),
        ensures
            r.items.deep_view() == services_of_type(self@, typ@),
            r.pos == 0,
    {
        let ghost s = self.by_type@;
        let mut i: usize = 0;
        while i < self.by_type.len()
            invariant
                i <= s.len(),
                s == self.by_type@,
                self.inv(),
                forall|j: int| 0 <= j < i ==> type_keys(s)[j] != typ@,
            decreases s.len() - i,
        {
            if self.by_type[i].0 == *typ {
                proof {
                    lemma_type_map_at(s, i as int);
                    assert(self@.by_type.contains_key(typ@));
                    assert(self@.by_type[typ@] == s[i as int].1@);
                }
                let ghost bucket = s[i as int].1@;
                let mut items: Vec<ServiceData> = Vec::new();
                let mut j: usize = 0;
                while j < self.by_type[i].1.len()
                    invariant
                        j <= bucket.len(),
                        i < s.len(),
                        s == self.by_type@,
                        bucket == s[i as int].1@,
                        self.inv(),
                        self@.by_type.contains_key(typ@),
                        self@.by_type[typ@] == bucket,
                        items@.len() == j,
                        forall|k: int|
                            0 <= k < j ==> items.deep_view()[k] == self@.by_id[#[trigger] bucket[k]],
                    decreases bucket.len() - j,
                {
                    let id = self.by_type[i].1[j];
                    proof {
                        assert(self@.by_type[typ@][j as int] == id);
                        assert(self@.by_id.contains_key(id));
                    }
                    match self.by_id.get(&id) {
                        Some(svc) => {
                            proof {
                                assert(*svc == self.by_id@[id]);
                                assert(self@.by_id[id] == self.by_id@[id]@);
                            }
                            items.push(svc.clone());
                            proof {
                                assert(items.deep_view()[j as int] == self@.by_id[id]);
                            }
                        },
                        None => {
                            proof {
                                assert(false);
                            }
                        },
                    }
                    j = j + 1;
                }
                proof {
                    assert(items.deep_view() =~= services_of_type(self@, typ@));
                }
                return FindByType { items, pos: 0 };
            }
            i = i + 1;
        }
        let empty: Vec<ServiceData> = Vec::new();
        proof {
            lemma_type_map_dom(s);
            if type_keys(s).contains(typ@) {
                let j = choose|j: int| 0 <= j < s.len() && type_keys(s)[j] == typ@;
                assert(false);
            }
            assert(!self@.by_type.contains_key(typ@));
            assert(services_of_type(self@, typ@) =~= Seq::<ServiceDataView>::empty());
            assert(empty.deep_view() =~= Seq::<ServiceDataView>::empty());
        }
        FindByType { items: empty, pos: 0 }
    }
    /// The type names with at least one registered service, in order.
    pub fn occupied_types(&self) -> (r: Vec<String>)
        requires
            self.inv(),
        ensures
            r.deep_view() == nonempty_types(self@),
    {
        let ghost s = self.by_type@;
        let mut out: Vec<String> = Vec::new();
        let mut i: usize = 0;
        proof {
            reveal_with_fuel(Seq::filter, 2);
            assert(nonempty_types_of(self@, type_keys(s).take(0)) =~= Seq::<Seq<char>>::empty());
        }
        while i < self.by_type.len()
            invariant
                i <= s.len(),
                s == self.by_type@,
                self.inv(),
                out.deep_view() == nonempty_types_of(self@, type_keys(s).take(i as int)),
            decreases s.len() - i,
        {
            proof {
                reveal_with_fuel(Seq::filter, 2);
                lemma_type_map_at(s, i as int);
                let ks = type_keys(s);
                assert(ks.take(i as int + 1).drop_last() =~= ks.take(i as int));
                assert(ks.take(i as int + 1).last() == ks[i as int]);
                assert(ks[i as int] == s[i as int].0@);
                assert(bucket_of(self@, s[i as int].0@) == s[i as int].1@);
                assert(nonempty_types_of(self@, ks.take(i as int + 1)) == if s[i as int].1@.len()
                    > 0 {
                    nonempty_types_of(self@, ks.take(i as int)).push(ks[i as int])
                } else {
                    nonempty_types_of(self@, ks.take(i as int))
                });
            }
            if self.by_type[i].1.len() > 0 {
                let ghost prev = out.deep_view();
                out.push(self.by_type[i].0.clone());
                proof {
                    assert forall|k: int| 0 <= k < out@.len() implies #[trigger] out.deep_view()[k]
                        == prev.push(type_keys(s)[i as int])[k] by {
                        if k < out@.len() - 1 {
                            assert(out.deep_view()[k] == out@[k]@);
                            assert(prev[k] == out@[k]@);
                        } else {
                            assert(out.deep_view()[k] == out@[k]@);
                        }
                    }
                    assert(out.deep_view() =~= prev.push(type_keys(s)[i as int]));
                }
            }
            i = i + 1;
        }
        proof {
            assert(type_keys(s).take(s.len() as int) =~= type_keys(s));
        }
        out
    }

    /// Index of the entry for this type in the type index, if present.
    fn find_type_index(&self, typ: &String) -> (r: Option<usize>)
        ensures
            match r {
                Some(i) => i < self.by_type@.len() && self.by_type@[i as int].0@ == typ@,
                None => !type_map(self.by_type@).contains_key(typ@),
            },
    {
        let ghost s = self.by_type@;
        let mut i: usize = 0;
        while i < self.by_type.len()
            invariant
                i <= s.len(),
                s == self.by_type@,
                forall|j: int| 0 <= j < i ==> type_keys(s)[j] != typ@,
            decreases s.len() - i,
        {
            if self.by_type[i].0 == *typ {
                return Some(i);
            }
            i = i + 1;
        }
        proof {
            lemma_type_map_dom(s);
            if type_keys(s).contains(typ@) {
                let j = choose|j: int| 0 <= j < type_keys(s).len() && type_keys(s)[j] == typ@;
                assert(false);
            }
        }
        None
    }

    /// Index of the entry for this instance name in the name index, if present.
    fn find_name_index(&self, name: &String) -> (r: Option<usize>)
        ensures
            match r {
                Some(i) => i < self.by_name@.len() && self.by_name@[i as int].0@ == name@,
                None => !name_map(self.by_name@).contains_key(name@),
            },
    {
        let ghost s = self.by_name@;
        let mut i: usize = 0;
        while i < self.by_name.len()
            invariant
                i <= s.len(),
                s == self.by_name@,
                forall|j: int| 0 <= j < i ==> name_keys(s)[j] != name@,
            decreases s.len() - i,
        {
            if self.by_name[i].0 == *name {
                return Some(i);
            }
            i = i + 1;
        }
        proof {
            lemma_name_map_dom(s);
            if name_keys(s).contains(name@) {
                let j = choose|j: int| 0 <= j < name_keys(s).len() && name_keys(s)[j] == name@;
                assert(false);
            }
        }
        None
    }

    /// Picks an id not yet in use: a bounded number of random draws, then the
    /// monotonic fallback counter, so allocation always terminates.
    fn alloc_id(&mut self) -> (id: usize)
        requires
            old(self).inv(),
            old(self).can_register(),
        ensures
            final(self).inv(),
            final(self)@ == old(self)@,
            !final(self)@.by_id.contains_key(id),
            id < final(self).next_id,
    {
        let mut id: usize = random_usize() / 2;
        let mut tries: usize = 0;
        while tries < 64 && self.by_id.contains_key(&id)
            invariant
                id <= usize::MAX / 2,
                tries <= 64,
            decreases 64 - tries,
        {
            id = random_usize() / 2;
            tries = tries + 1;
        }
        if self.by_id.contains_key(&id) {
            id = self.next_id;
            proof {
                if self@.by_id.contains_key(id) {
                    assert(id < self.next_id);
                }
            }
        }
        proof {
            assert(self@.by_id.dom() =~= self.by_id@.dom());
        }
        if id >= self.next_id {
            self.next_id = id + 1;
        }
        id
    }

    /// Registers a new service and returns its unique id.
    pub fn register(&mut self, svc: ServiceData) -> (id: usize)
        requires
            old(self).inv(),
            old(self).can_register(),
            svc_wf(svc@),
            !old(self)@.by_name.contains_key(svc@.name),
        ensures
            final(self).inv(),
            !old(self)@.by_id.contains_key(id),
            final(self)@ == register_effect(old(self)@, id, svc@),
    {
        let ghost svcv = svc@;
        let id = self.alloc_id();
        let ghost v0 = self@;
        let ghost v1 = register_effect(v0, id, svcv);
        let ghost ts = self.by_type@;
        proof {
            lemma_type_map_dom(ts);
        }
        match self.find_type_index(&svc.typ) {
            Some(i) => {
                proof {
                    lemma_type_map_at(ts, i as int);
                }
                let mut entry = self.by_type.remove(i);
                entry.1.push(id);
                let ghost p = (entry.0, entry.1);
                self.by_type.insert(i, entry);
                proof {
                    lemma_type_map_remove(ts, i as int);
                    assert(!type_keys(ts.remove(i as int)).contains(svcv.typ)) by {
                        if type_keys(ts.remove(i as int)).contains(svcv.typ) {
                            let j = choose|j: int|
                                0 <= j < type_keys(ts.remove(i as int)).len() && type_keys(
                                    ts.remove(i as int),
                                )[j] == svcv.typ;
                            assert(type_keys(ts.remove(i as int))[j] == type_keys(ts).remove(
                                i as int,
                            )[j]);
                            let j0 = if j < i as int {
                                j
                            } else {
                                j + 1
                            };
                            assert(type_keys(ts)[j0] == svcv.typ);
                            assert(type_keys(ts)[i as int] == svcv.typ);
                        }
                    }
                    lemma_type_map_insert_at(ts.remove(i as int), i as int, p);
                    assert(p.0@ == svcv.typ);
                    assert(p.1@ == v0.by_type[svcv.typ].push(id));
                    assert(type_map(self.by_type@) =~~= v0.by_type.insert(
                        svcv.typ,
                        bucket_of(v0, svcv.typ).push(id),
                    ));
                    assert(type_keys(self.by_type@) =~= type_keys(ts).remove(i as int).insert(
                        i as int,
                        svcv.typ,
                    ));
                    assert(type_keys(self.by_type@) =~= type_keys(ts));
                    assert(type_keys(self.by_type@).no_duplicates());
                }
            },
            None => {
                let mut bucket: Vec<usize> = Vec::new();
                bucket.push(id);
                let ghost p = (svc.typ, bucket);
                self.by_type.push((svc.typ.clone(), bucket));
                proof {
                    assert(!type_keys(ts).contains(svcv.typ)) by {
                        lemma_type_map_dom(ts);
                    }
                    lemma_type_map_insert_at(ts, ts.len() as int, p);
                    assert(ts.insert(ts.len() as int, p) =~= ts.push(p));
                    assert(self.by_type@ =~= ts.push(p));
                    assert(p.1@ =~= Seq::<usize>::empty().push(id));
                    assert(bucket_of(v0, svcv.typ) == Seq::<usize>::empty());
                    assert(type_map(self.by_type@) =~~= v0.by_type.insert(
                        svcv.typ,
                        bucket_of(v0, svcv.typ).push(id),
                    ));
                    assert(type_keys(self.by_type@) =~= type_keys(ts).push(svcv.typ));
                    assert(type_keys(self.by_type@).no_duplicates());
                }
            },
        }
        let ghost ns = self.by_name@;
        self.by_name.push((svc.name.clone(), id));
        proof {
            lemma_name_map_dom(ns);
            assert(!name_keys(ns).contains(svcv.name));
            assert(self.by_name@.drop_last() =~= ns);
            assert(name_map(self.by_name@) == name_map(ns).insert(svcv.name, id));
            assert(name_keys(self.by_name@) =~= name_keys(ns).push(svcv.name));
            lemma_push_fresh_no_dup(name_keys(ns), svcv.name);
            assert(name_keys(self.by_name@).no_duplicates());
        }
        let ghost m0 = self.by_id@;
        self.by_id.insert(id, svc);
        proof {
            assert(id_views(self.by_id@) =~~= id_views(m0).insert(id, svcv));
            assert(self@ =~~= v1);
            lemma_register_invariant(v0, id, svcv);
            assert forall|id2: usize| #[trigger] self@.by_id.contains_key(id2) implies id2
                < self.next_id by {
                assert(v1.by_id.contains_key(id2));
                if id2 != id {
                    assert(v0.by_id.contains_key(id2));
                }
            }
        }
        id
    }

    /// Unregisters a service by id and returns its data, scrubbing all
    /// three indices.
    pub fn unregister(&mut self, id: usize) -> (r: ServiceData)
        requires
            old(self).inv(),
            old(self)@.by_id.contains_key(id),
        ensures
            final(self).inv(),
            r@ == old(self)@.by_id[id],
            final(self)@ == unregister_effect(old(self)@, id),
    {
        let ghost v0 = self@;
        let ghost v1 = unregister_effect(v0, id);
        let ghost m0 = self.by_id@;
        let svc = match self.by_id.remove(&id) {
            Some(s) => s,
            None => {
                proof {
                    assert(false);
                }
                vstd::pervasive::unreached()
            },
        };
        proof {
            assert(svc@ == v0.by_id[id]);
            assert(id_views(self.by_id@) =~~= id_views(m0).remove(id));
        }
        let ghost ts = self.by_type@;
        let ti = match self.find_type_index(&svc.typ) {
            Some(i) => i,
            None => {
                proof {
                    assert(v0.by_type.contains_key(svc@.typ));
                    assert(false);
                }
                vstd::pervasive::unreached()
            },
        };
        proof {
            lemma_type_map_at(ts, ti as int);
        }
        let mut entry = self.by_type.remove(ti);
        let ghost bucket = entry.1@;
        let filtered = retain_ne(&entry.1, id);
        entry.1 = filtered;
        let ghost p = (entry.0, entry.1);
        self.by_type.insert(ti, entry);
        proof {
            lemma_type_map_remove(ts, ti as int);
            assert(!type_keys(ts.remove(ti as int)).contains(svc@.typ)) by {
                if type_keys(ts.remove(ti as int)).contains(svc@.typ) {
                    let j = choose|j: int|
                        0 <= j < type_keys(ts.remove(ti as int)).len() && type_keys(
                            ts.remove(ti as int),
                        )[j] == svc@.typ;
                    assert(type_keys(ts.remove(ti as int))[j] == type_keys(ts).remove(
                        ti as int,
                    )[j]);
                    let j0 = if j < ti as int {
                        j
                    } else {
                        j + 1
                    };
                    assert(type_keys(ts)[j0] == svc@.typ);
                    assert(type_keys(ts)[ti as int] == svc@.typ);
                }
            }
            lemma_type_map_insert_at(ts.remove(ti as int), ti as int, p);
            assert(p.0@ == svc@.typ);
            assert(bucket == v0.by_type[svc@.typ]);
            assert(p.1@ == bucket_without(bucket, id));
            assert(type_map(self.by_type@) =~~= v0.by_type.insert(
                svc@.typ,
                bucket_without(v0.by_type[svc@.typ], id),
            ));
            assert(type_keys(self.by_type@) =~= type_keys(ts).remove(ti as int).insert(
                ti as int,
                svc@.typ,
            ));
            assert(type_keys(self.by_type@) =~= type_keys(ts));
            assert(type_keys(self.by_type@).no_duplicates());
        }
        let ghost ns = self.by_name@;
        let ni = match self.find_name_index(&svc.name) {
            Some(i) => i,
            None => {
                proof {
                    assert(v0.by_name.contains_key(svc@.name));
                    assert(false);
                }
                vstd::pervasive::unreached()
            },
        };
        proof {
            lemma_name_map_at(ns, ni as int);
            // the name index entry must point back at the id being removed
            assert(name_map(ns)[svc@.name] == v0.by_name[svc@.name]);
            assert(v0.by_name[svc@.name] == id);
        }
        self.by_name.remove(ni);
        proof {
            lemma_name_map_remove(ns, ni as int);
            assert(name_map(self.by_name@) == v0.by_name.remove(svc@.name));
            assert(self@ =~~= v1);
            lemma_unregister_invariant(v0, id);
            assert forall|id2: usize| #[trigger] self@.by_id.contains_key(id2) implies id2
                < self.next_id by {
                assert(v0.by_id.contains_key(id2));
            }
        }
        svc
    }
}

/// Keeps the elements of `v` other than `id`, in order.
fn retain_ne(v: &Vec<usize>, id: usize) -> (r: Vec<usize>)
    ensures
        r@ == bucket_without(v@, id),
{
    let mut out: Vec<usize> = Vec::new();
    let mut i: usize = 0;
    proof {
        reveal_with_fuel(Seq::filter, 2);
        assert(bucket_without(v@.take(0), id) =~= Seq::<usize>::empty());
    }
    while i < v.len()
        invariant
            i <= v@.len(),
            out@ == bucket_without(v@.take(i as int), id),
        decreases v@.len() - i,
    {
        proof {
            reveal_with_fuel(Seq::filter, 2);
            let t = v@.take(i as int + 1);
            assert(t.drop_last() =~= v@.take(i as int));
            assert(t.last() == v@[i as int]);
            assert(bucket_without(t, id) == if v@[i as int] != id {
                bucket_without(v@.take(i as int), id).push(v@[i as int])
            } else {
                bucket_without(v@.take(i as int), id)
            });
        }
        if v[i] != id {
            out.push(v[i]);
        }
        i = i + 1;
    }
    proof {
        assert(v@.take(v@.len() as int) =~= v@);
    }
    out
}

/// Removing one id from a duplicate-free bucket keeps it duplicate-free and
/// keeps exactly the other ids.
proof fn lemma_filter_id(s: Seq<usize>, id: usize, nb: Seq<usize>)
    requires
        s.no_duplicates(),
        nb == bucket_without(s, id),
    ensures
        nb.no_duplicates(),
        forall|x: usize| #[trigger] nb.contains(x) <==> (s.contains(x) && x != id),
    decreases s.len(),
{
    reveal_with_fuel(Seq::filter, 2);
    if s.len() == 0 {
        assert(bucket_without(s, id) =~= Seq::<usize>::empty());
        assert forall|x: usize| #[trigger] nb.contains(x) <==> (s.contains(x) && x != id) by {
            if s.contains(x) {
                let j = choose|j: int| 0 <= j < s.len() && s[j] == x;
            }
        }
    } else {
        let d = s.drop_last();
        assert forall|a: int, b: int| 0 <= a < b < d.len() implies d[a] != d[b] by {
            assert(s[a] == d[a] && s[b] == d[b]);
        }
        lemma_filter_id(d, id, bucket_without(d, id));
        assert(s == d.push(s.last()));
        assert(bucket_without(s, id) == if s.last() != id {
            bucket_without(d, id).push(s.last())
        } else {
            bucket_without(d, id)
        });
        let fd = bucket_without(d, id);
        let fs = bucket_without(s, id);
        assert forall|x: usize| #[trigger] fs.contains(x) implies (s.contains(x) && x != id) by {
            if s.last() != id && x == s.last() {
                assert(s[s.len() - 1] == x);
            } else {
                if fs.contains(x) {
                    if s.last() != id {
                        let j = choose|j: int| 0 <= j < fs.len() && fs[j] == x;
                        if j < fs.len() - 1 {
                            assert(fd[j] == x);
                            assert(fd.contains(x));
                        }
                    } else {
                        assert(fd.contains(x));
                    }
                    if fd.contains(x) {
                        assert(d.contains(x));
                        let j = choose|j: int| 0 <= j < d.len() && d[j] == x;
                        assert(s[j] == x);
                    }
                }
            }
        }
        assert forall|x: usize| (s.contains(x) && x != id) implies #[trigger] fs.contains(x) by {
            let j = choose|j: int| 0 <= j < s.len() && s[j] == x;
            if j < s.len() - 1 {
                assert(d[j] == x);
                assert(d.contains(x));
                assert(fd.contains(x));
                if s.last() != id {
                    let k = choose|k: int| 0 <= k < fd.len() && fd[k] == x;
                    assert(fs[k] == x);
                } else {
                    assert(fs == fd);
                }
            } else {
                assert(x == s.last());
                assert(fs.last() == x);
            }
        }
        if s.last() != id {
            assert(!fd.contains(s.last())) by {
                if fd.contains(s.last()) {
                    assert(d.contains(s.last()));
                    let j = choose|j: int| 0 <= j < d.len() && d[j] == s.last();
                    assert(s[j] == s[s.len() - 1]);
                }
            }
            assert forall|a: int, b: int| 0 <= a < b < fs.len() implies fs[a] != fs[b] by {
                if b == fs.len() - 1 {
                    assert(fd[a] == fs[a]);
                    assert(fd.contains(fd[a]));
                }
            }
        }
    }
}

/// Pushing an element that is not yet present keeps a sequence
/// duplicate-free.
proof fn lemma_push_fresh_no_dup<A>(s: Seq<A>, x: A)
    requires
        s.no_duplicates(),
        !s.contains(x),
    ensures
        s.push(x).no_duplicates(),
{
    let p = s.push(x);
    assert forall|i: int, j: int|
        (0 <= i < p.len() && 0 <= j < p.len() && i != j) implies p[i] != p[j] by {
        if i < s.len() && j < s.len() {
            assert(p[i] == s[i] && p[j] == s[j]);
        } else if i < s.len() {
            assert(p[i] == s[i] && p[j] == x);
            assert(s.contains(s[i]));
        } else {
            assert(p[j] == s[j] && p[i] == x);
            assert(s.contains(s[j]));
        }
    }
}

/// Registering a fresh id under a fresh instance name preserves the
/// three-way index invariant.
proof fn lemma_register_invariant(v: RegistryView, id: usize, svc: ServiceDataView)
    requires
        index_invariant(v),
        svc_wf(svc),
        !v.by_id.contains_key(id),
        !v.by_name.contains_key(svc.name),
    ensures
        index_invariant(register_effect(v, id, svc)),
{
    let v1 = register_effect(v, id, svc);
    let bucket = bucket_of(v, svc.typ);
    assert(!bucket.contains(id)) by {
        if bucket.contains(id) {
            let j = choose|j: int| 0 <= j < bucket.len() && bucket[j] == id;
            assert(v.by_id.contains_key(bucket[j]));
        }
    }
    assert forall|id2: usize| #[trigger] v1.by_id.contains_key(id2) implies {
        &&& svc_wf(v1.by_id[id2])
        &&& v1.by_name.contains_key(v1.by_id[id2].name)
        &&& v1.by_name[v1.by_id[id2].name] == id2
        &&& v1.by_type.contains_key(v1.by_id[id2].typ)
        &&& v1.by_type[v1.by_id[id2].typ].contains(id2)
    } by {
        if id2 == id {
            assert(v1.by_type[svc.typ] == bucket.push(id));
            assert(bucket.push(id)[bucket.len() as int] == id);
        } else {
            assert(v.by_id.contains_key(id2));
            let s2 = v.by_id[id2];
            assert(v.by_name.contains_key(s2.name));
            assert(s2.name != svc.name);
            if s2.typ == svc.typ {
                assert(bucket.contains(id2));
                let j = choose|j: int| 0 <= j < bucket.len() && bucket[j] == id2;
                assert(bucket.push(id)[j] == id2);
                assert(v1.by_type[s2.typ].contains(id2));
            }
        }
    }
    assert forall|n: Seq<char>| #[trigger] v1.by_name.contains_key(n) implies v1.by_id.contains_key(
        v1.by_name[n],
    ) && v1.by_id[v1.by_name[n]].name == n by {
        if n != svc.name {
            assert(v.by_name.contains_key(n));
            assert(v.by_name[n] != id);
        }
    }
    assert forall|t: Seq<char>| #[trigger] v1.by_type.contains_key(t) implies {
        &&& v1.by_type[t].no_duplicates()
        &&& forall|j: int|
            0 <= j < v1.by_type[t].len() ==> v1.by_id.contains_key(#[trigger] v1.by_type[t][j])
                && v1.by_id[v1.by_type[t][j]].typ == t
    } by {
        if t == svc.typ {
            let nb = bucket.push(id);
            assert(bucket.no_duplicates()) by {
                if !v.by_type.contains_key(svc.typ) {
                    assert(bucket =~= Seq::<usize>::empty());
                }
            }
            lemma_push_fresh_no_dup(bucket, id);
            assert(v1.by_type[t] == nb);
            assert(v1.by_type[t].no_duplicates());
            assert forall|j: int| 0 <= j < nb.len() implies v1.by_id.contains_key(
                #[trigger] nb[j],
            ) && v1.by_id[nb[j]].typ == t by {
                if j < bucket.len() {
                    assert(v.by_type[t][j] == nb[j]);
                    assert(v.by_id.contains_key(nb[j]));
                    assert(nb[j] != id);
                }
            }
        } else {
            assert(v.by_type.contains_key(t));
            assert forall|j: int| 0 <= j < v1.by_type[t].len() implies v1.by_id.contains_key(
                #[trigger] v1.by_type[t][j],
            ) && v1.by_id[v1.by_type[t][j]].typ == t by {
                assert(v.by_id.contains_key(v.by_type[t][j]));
                assert(v.by_type[t][j] != id);
            }
        }
    }
    if !v.by_type.contains_key(svc.typ) {
        assert(!v.types.contains(svc.typ));
        lemma_push_fresh_no_dup(v.types, svc.typ);
        assert forall|t: Seq<char>| #[trigger] v1.by_type.contains_key(t) implies v1.types.contains(
            t,
        ) by {
            if t == svc.typ {
                assert(v1.types[v1.types.len() - 1] == t);
            } else {
                let j = choose|j: int| 0 <= j < v.types.len() && v.types[j] == t;
                assert(v1.types[j] == t);
            }
        }
        assert forall|t: Seq<char>| v1.types.contains(t) implies #[trigger] v1.by_type.contains_key(
            t,
        ) by {
            let j = choose|j: int| 0 <= j < v1.types.len() && v1.types[j] == t;
            if j < v.types.len() {
                assert(v.types.contains(t));
            }
        }
    }
}

/// Unregistering an id preserves the three-way index invariant.
proof fn lemma_unregister_invariant(v: RegistryView, id: usize)
    requires
        index_invariant(v),
        v.by_id.contains_key(id),
    ensures
        index_invariant(unregister_effect(v, id)),
{
    let svc = v.by_id[id];
    let v1 = unregister_effect(v, id);
    let bucket = v.by_type[svc.typ];
    let nb = bucket_without(bucket, id);
    lemma_filter_id(bucket, id, nb);
    assert forall|id2: usize| #[trigger] v1.by_id.contains_key(id2) implies {
        &&& svc_wf(v1.by_id[id2])
        &&& v1.by_name.contains_key(v1.by_id[id2].name)
        &&& v1.by_name[v1.by_id[id2].name] == id2
        &&& v1.by_type.contains_key(v1.by_id[id2].typ)
        &&& v1.by_type[v1.by_id[id2].typ].contains(id2)
    } by {
        assert(v.by_id.contains_key(id2));
        let s2 = v.by_id[id2];
        assert(id2 != id);
        assert(s2.name != svc.name) by {
            if s2.name == svc.name {
                assert(v.by_name[s2.name] == id2);
                assert(v.by_name[svc.name] == id);
            }
        }
        if s2.typ == svc.typ {
            assert(bucket.contains(id2));
            assert(nb.contains(id2));
        }
    }
    assert forall|n: Seq<char>| #[trigger] v1.by_name.contains_key(n) implies v1.by_id.contains_key(
        v1.by_name[n],
    ) && v1.by_id[v1.by_name[n]].name == n by {
        assert(v.by_name.contains_key(n));
        assert(n != svc.name);
        assert(v.by_name[n] != id) by {
            if v.by_name[n] == id {
                assert(v.by_id[id].name == n);
            }
        }
    }
    assert forall|t: Seq<char>| #[trigger] v1.by_type.contains_key(t) implies {
        &&& v1.by_type[t].no_duplicates()
        &&& forall|j: int|
            0 <= j < v1.by_type[t].len() ==> v1.by_id.contains_key(#[trigger] v1.by_type[t][j])
                && v1.by_id[v1.by_type[t][j]].typ == t
    } by {
        if t == svc.typ {
            assert forall|j: int| 0 <= j < nb.len() implies v1.by_id.contains_key(#[trigger] nb[j])
                && v1.by_id[nb[j]].typ == t by {
                assert(nb.contains(nb[j]));
                assert(bucket.contains(nb[j]) && nb[j] != id);
                let k = choose|k: int| 0 <= k < bucket.len() && bucket[k] == nb[j];
                assert(v.by_id.contains_key(bucket[k]));
            }
        } else {
            assert(v.by_type.contains_key(t));
            assert forall|j: int| 0 <= j < v1.by_type[t].len() implies v1.by_id.contains_key(
                #[trigger] v1.by_type[t][j],
            ) && v1.by_id[v1.by_type[t][j]].typ == t by {
                assert(v.by_id.contains_key(v.by_type[t][j]));
                assert(v.by_type[t][j] != id) by {
                    if v.by_type[t][j] == id {
                        assert(v.by_id[id].typ == t);
                    }
                }
            }
        }
    }
    assert forall|t: Seq<char>| #[trigger] v1.by_type.contains_key(t) <==> v1.types.contains(
        t,
    ) by {
        if t == svc.typ {
            assert(v.by_type.contains_key(t));
        }
    }
}

/// A sequence with `id` absent is unchanged by scrubbing `id` from it.
proof fn lemma_filter_absent(b: Seq<usize>, id: usize)
    requires
        !b.contains(id),
    ensures
        bucket_without(b, id) == b,
    decreases b.len(),
{
    reveal_with_fuel(Seq::filter, 2);
    if b.len() == 0 {
        assert(bucket_without(b, id) =~= b);
    } else {
        let d = b.drop_last();
        assert(!d.contains(id)) by {
            if d.contains(id) {
                let j = choose|j: int| 0 <= j < d.len() && d[j] == id;
                assert(b[j] == id);
            }
        }
        lemma_filter_absent(d, id);
        assert(b.last() != id) by {
            if b.last() == id {
                assert(b[b.len() - 1] == id);
            }
        }
        assert(bucket_without(b, id) == bucket_without(d, id).push(b.last()));
        assert(d.push(b.last()) =~= b);
    }
}

/// Law: looking a registered service up under its own instance name yields
/// exactly that service.
pub proof fn lemma_find_by_name_exact(v: RegistryView, id: usize)
    requires
        index_invariant(v),
        v.by_id.contains_key(id),
    ensures
        service_named(v, v.by_id[id].name) == Some(v.by_id[id]),
{
}

/// Law: a registered service appears exactly once among the services of
/// its type.
pub proof fn lemma_find_by_type_once(v: RegistryView, id: usize)
    requires
        index_invariant(v),
        v.by_id.contains_key(id),
    ensures
        ({
            let ss = services_of_type(v, v.by_id[id].typ);
            &&& exists|i: int| 0 <= i < ss.len() && ss[i] == v.by_id[id]
            &&& forall|i: int, j: int|
                (0 <= i < ss.len() && 0 <= j < ss.len() && ss[i] == v.by_id[id] && ss[j]
                    == v.by_id[id]) ==> i == j
        }),
{
    let svc = v.by_id[id];
    let t = svc.typ;
    let bucket = v.by_type[t];
    let ss = services_of_type(v, t);
    assert(bucket.contains(id));
    let k = choose|k: int| 0 <= k < bucket.len() && bucket[k] == id;
    assert(ss[k] == v.by_id[id]);
    assert(exists|i: int| 0 <= i < ss.len() && ss[i] == v.by_id[id]);
    assert forall|i: int, j: int|
        0 <= i < ss.len() && 0 <= j < ss.len() && ss[i] == svc && ss[j] == svc implies i == j by {
        assert(v.by_id.contains_key(bucket[i]));
        assert(v.by_id.contains_key(bucket[j]));
        assert(ss[i] == v.by_id[bucket[i]]);
        assert(ss[j] == v.by_id[bucket[j]]);
        assert(v.by_name[v.by_id[bucket[i]].name] == bucket[i]);
        assert(v.by_name[v.by_id[bucket[j]].name] == bucket[j]);
        assert(bucket[i] == bucket[j]);
    }
}

/// Law: registering a service and then unregistering the returned id yields
/// back an equal service record, and restores the id and name indices; the
/// type bucket keeps its (now emptied) slot.
pub proof fn lemma_register_unregister_round_trip(v: RegistryView, id: usize, svc: ServiceDataView)
    requires
        index_invariant(v),
        !v.by_id.contains_key(id),
        !v.by_name.contains_key(svc.name),
    ensures
        register_effect(v, id, svc).by_id[id] == svc,
        unregister_effect(register_effect(v, id, svc), id).by_id == v.by_id,
        unregister_effect(register_effect(v, id, svc), id).by_name == v.by_name,
        unregister_effect(register_effect(v, id, svc), id).by_type == v.by_type.insert(
            svc.typ,
            bucket_of(v, svc.typ),
        ),
{
    let v1 = register_effect(v, id, svc);
    let v2 = unregister_effect(v1, id);
    let bucket = bucket_of(v, svc.typ);
    assert(v1.by_id[id] == svc);
    assert(v2.by_id =~~= v.by_id);
    assert(v2.by_name =~~= v.by_name);
    assert(!bucket.contains(id)) by {
        if bucket.contains(id) {
            let j = choose|j: int| 0 <= j < bucket.len() && bucket[j] == id;
            assert(v.by_id.contains_key(bucket[j]));
        }
    }
    reveal_with_fuel(Seq::filter, 2);
    assert(bucket.push(id).drop_last() =~= bucket);
    assert(bucket_without(bucket.push(id), id) == bucket_without(bucket, id));
    lemma_filter_absent(bucket, id);
    assert(v2.by_type =~~= v.by_type.insert(svc.typ, bucket));
}

/// Returned by `ServicesInner::find_by_type`: the matching services,
/// walked front to back.
pub struct FindByType {
    pub items: Vec<ServiceData>,
    pub pos: usize,
}

impl FindByType {
    /// The services not yet yielded.
    pub open spec fn remaining(&self) -> Seq<ServiceDataView> {
        if self.pos <= self.items.deep_view().len() {
            self.items.deep_view().skip(self.pos as int)
        } else {
            Seq::empty()
        }
    }

    /// Yields the next service, or `None` when all have been yielded.
    pub fn next(&mut self) -> (r: Option<ServiceData>)
        ensures
            match r {
                Some(svc) => old(self).remaining().len() > 0 && svc@ == old(self).remaining()[0]
                    && final(self).remaining() == old(self).remaining().skip(1),
                None => old(self).remaining().len() == 0 && final(self).remaining()
                    == old(self).remaining(),
            },
    {
        if self.pos < self.items.len() {
            let svc = self.items[self.pos].clone();
            self.pos = self.pos + 1;
            proof {
                assert(self.items.deep_view().len() == self.items@.len());
                assert(svc@ == old(self).remaining()[0]);
                assert(self.remaining() =~= old(self).remaining().skip(1));
            }
            Some(svc)
        } else {
            proof {
                assert(self.items.deep_view().len() == self.items@.len());
            }
            None
        }
    }

    /// The services not yet yielded, as a vector.
    pub fn into_vec(self) -> (r: Vec<ServiceData>)
        ensures
            r.deep_view() == self.remaining(),
    {
        let mut out: Vec<ServiceData> = Vec::new();
        let mut i: usize = self.pos;
        if i > self.items.len() {
            proof {
                assert(self.items.deep_view().len() == self.items@.len());
                assert(out.deep_view() =~= self.remaining());
            }
            return out;
        }
        while i < self.items.len()
            invariant
                self.pos <= i <= self.items@.len(),
                self.items.deep_view().len() == self.items@.len(),
                out@.len() == i - self.pos,
                forall|k: int|
                    0 <= k < out@.len() ==> #[trigger] out.deep_view()[k]
                        == self.items.deep_view()[self.pos + k],
            decreases self.items@.len() - i,
        {
            let svc = self.items[i].clone();
            proof {
                assert(svc@ == self.items@[i as int]@);
                assert(self.items.deep_view()[i as int] == self.items@[i as int]@);
            }
            let ghost prev = out.deep_view();
            out.push(svc);
            i = i + 1;
            proof {
                assert forall|k: int| 0 <= k < out@.len() implies #[trigger] out.deep_view()[k]
                    == self.items.deep_view()[self.pos + k] by {
                    if k < out@.len() - 1 {
                        assert(out.deep_view()[k] == out@[k]@);
                        assert(prev[k] == out@[k]@);
                    } else {
                        assert(out.deep_view()[k] == svc@);
                    }
                }
            }
        }
        proof {
            assert(out.deep_view() =~= self.remaining());
        }
        out
    }
}

} // verus!
