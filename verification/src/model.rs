//! The document model: one configuration document holds global settings, an
//! ordered mapping from interface name to interface settings, and an optional
//! mapping from bridge name to bridge settings. Every field of an interface's
//! settings is independently optional; absence means "unmanaged", not "empty".

use vstd::prelude::*;
use crate::text::lex_le;

verus! {

/// Full-fidelity settings of one interface. Each field is optional; an
/// absent field is omitted from the serialized document.
#[derive(Debug, Clone, PartialEq)]
pub struct Nic {
    pub addresses: Option<Vec<String>>,
    pub dhcp4: Option<bool>,
    pub gateway4: Option<String>,
    pub nameservers: Option<Nameservers>,
    pub optional: Option<bool>,
}

/// The nameserver block of an interface or bridge, split by role into the
/// server address list and the search-domain list.
#[derive(Debug, Clone, PartialEq)]
pub struct Nameservers {
    pub addresses: Option<Vec<String>>,
    pub search: Option<Vec<String>>,
}

/// Simplified, externally-facing shape of one interface's settings: the
/// nameserver block is flattened to its address list.
#[derive(Debug, Clone, PartialEq)]
pub struct NicOutput {
    pub addresses: Option<Vec<String>>,
    pub dhcp4: Option<bool>,
    pub gateway4: Option<String>,
    pub nameservers: Option<Vec<String>>,
}

/// Settings of one bridge: its member interfaces, its addresses, an optional
/// gateway and a nameserver block.
#[derive(Debug, Clone, PartialEq)]
pub struct Bridge {
    pub interfaces: Vec<String>,
    pub addresses: Vec<String>,
    pub gateway4: Option<String>,
    pub nameservers: Nameservers,
}

/// The body of a document: global settings and the two mappings.
#[derive(Debug, Clone, PartialEq)]
pub struct Network {
    pub version: Option<u32>,
    pub renderer: Option<String>,
    pub ethernets: Vec<(String, Nic)>,
    pub bridges: Option<Vec<(String, Bridge)>>,
}

/// One configuration document.
#[derive(Debug, Clone, PartialEq)]
pub struct NetplanYaml {
    pub network: Network,
}

/// Mathematical shape of a nameserver block.
pub ghost struct NameserversV {
    pub addresses: Option<Seq<Seq<char>>>,
    pub search: Option<Seq<Seq<char>>>,
}

/// Mathematical shape of one interface's settings.
pub ghost struct NicV {
    pub addresses: Option<Seq<Seq<char>>>,
    pub dhcp4: Option<bool>,
    pub gateway4: Option<Seq<char>>,
    pub nameservers: Option<NameserversV>,
    pub optional: Option<bool>,
}

/// Mathematical shape of the simplified interface settings.
pub ghost struct NicOutputV {
    pub addresses: Option<Seq<Seq<char>>>,
    pub dhcp4: Option<bool>,
    pub gateway4: Option<Seq<char>>,
    pub nameservers: Option<Seq<Seq<char>>>,
}

/// Mathematical shape of one bridge's settings.
pub ghost struct BridgeV {
    pub interfaces: Seq<Seq<char>>,
    pub addresses: Seq<Seq<char>>,
    pub gateway4: Option<Seq<char>>,
    pub nameservers: NameserversV,
}

/// Mathematical shape of a document.
pub ghost struct DocV {
    pub version: Option<u32>,
    pub renderer: Option<Seq<char>>,
    pub ethernets: Seq<(Seq<char>, NicV)>,
    pub bridges: Option<Seq<(Seq<char>, BridgeV)>>,
}

impl DeepView for Nameservers {
    type V = NameserversV;

    open spec fn deep_view(&self) -> NameserversV {
        NameserversV {
            addresses: self.addresses.deep_view(),
            search: self.search.deep_view(),
        }
    }
}

impl DeepView for Nic {
    type V = NicV;

    open spec fn deep_view(&self) -> NicV {
        NicV {
            addresses: self.addresses.deep_view(),
            dhcp4: self.dhcp4,
            gateway4: self.gateway4.deep_view(),
            nameservers: self.nameservers.deep_view(),
            optional: self.optional,
        }
    }
}

impl DeepView for NicOutput {
    type V = NicOutputV;

    open spec fn deep_view(&self) -> NicOutputV {
        NicOutputV {
            addresses: self.addresses.deep_view(),
            dhcp4: self.dhcp4,
            gateway4: self.gateway4.deep_view(),
            nameservers: self.nameservers.deep_view(),
        }
    }
}

impl DeepView for Bridge {
    type V = BridgeV;

    open spec fn deep_view(&self) -> BridgeV {
        BridgeV {
            interfaces: self.interfaces.deep_view(),
            addresses: self.addresses.deep_view(),
            gateway4: self.gateway4.deep_view(),
            nameservers: self.nameservers.deep_view(),
        }
    }
}

impl DeepView for NetplanYaml {
    type V = DocV;

    open spec fn deep_view(&self) -> DocV {
        DocV {
            version: self.network.version,
            renderer: self.network.renderer.deep_view(),
            ethernets: self.network.ethernets.deep_view(),
            bridges: self.network.bridges.deep_view(),
        }
    }
}

/// The names of an entry sequence, in order.
pub open spec fn names_of<V>(s: Seq<(Seq<char>, V)>) -> Seq<Seq<char>> {
    s.map_values(|p: (Seq<char>, V)| p.0)
}

/// The name-to-value mapping an entry sequence denotes; a later entry for a
/// name overrides an earlier one.
pub open spec fn pairs_map<V>(s: Seq<(Seq<char>, V)>) -> Map<Seq<char>, V>
    decreases s.len(),
{
    if s.len() == 0 {
        Map::empty()
    } else {
        pairs_map(s.drop_last()).insert(s.last().0, s.last().1)
    }
}

/// No two entries share a name.
pub open spec fn unique_names<V>(s: Seq<(Seq<char>, V)>) -> bool {
    forall|i: int, j: int| 0 <= i < j < s.len() ==> s[i].0 != s[j].0
}

/// Entries are in non-descending lexicographic order of name.
pub open spec fn sorted_names<V>(s: Seq<(Seq<char>, V)>) -> bool {
    forall|i: int, j: int| 0 <= i <= j < s.len() ==> lex_le(s[i].0, s[j].0)
}

/// A well-formed document: interface names are unique, and bridge names are
/// unique when a bridge mapping is present.
pub open spec fn wf_doc(d: DocV) -> bool {
    &&& unique_names(d.ethernets)
    &&& match d.bridges {
        Some(bs) => unique_names(bs),
        None => true,
    }
}

/// Each entry of a unique-name sequence is what its map holds for its name.
pub proof fn lemma_pairs_map_index<V>(s: Seq<(Seq<char>, V)>, i: int)
    requires
        unique_names(s),
        0 <= i < s.len(),
    ensures
        pairs_map(s).contains_key(s[i].0),
        pairs_map(s)[s[i].0] == s[i].1,
    decreases s.len(),
{
    if i < s.len() - 1 {
        lemma_pairs_map_index(s.drop_last(), i);
        assert(s.drop_last()[i] == s[i]);
        assert(s[i].0 != s.last().0);
    }
}

/// A name in the map of a sequence names some entry of it.
pub proof fn lemma_pairs_map_key<V>(s: Seq<(Seq<char>, V)>, n: Seq<char>)
    requires
        pairs_map(s).contains_key(n),
    ensures
        exists|i: int| 0 <= i < s.len() && s[i].0 == n,
    decreases s.len(),
{
    if s.len() > 0 && s.last().0 != n {
        lemma_pairs_map_key(s.drop_last(), n);
        let i = choose|i: int| 0 <= i < s.drop_last().len() && s.drop_last()[i].0 == n;
        assert(s[i].0 == n);
    }
}

/// The map's domain is exactly the entry names.
pub proof fn lemma_pairs_map_dom<V>(s: Seq<(Seq<char>, V)>, n: Seq<char>)
    ensures
        pairs_map(s).contains_key(n) <==> names_of(s).contains(n),
    decreases s.len(),
{
    if s.len() > 0 {
        lemma_pairs_map_dom(s.drop_last(), n);
        assert(names_of(s).len() == s.len());
        if names_of(s.drop_last()).contains(n) {
            let i = choose|i: int| 0 <= i < s.len() - 1 && names_of(s.drop_last())[i] == n;
            assert(names_of(s)[i] == n);
        }
        if s.last().0 == n {
            assert(names_of(s)[s.len() - 1] == n);
        }
        if names_of(s).contains(n) && s.last().0 != n {
            let i = choose|i: int| 0 <= i < s.len() && names_of(s)[i] == n;
            assert(i < s.len() - 1);
            assert(names_of(s.drop_last())[i] == n);
        }
    }
}

impl Nic {
    /// Builds interface settings from the given fields.
    #[must_use]
    pub fn new(
        addresses: Option<Vec<String>>,
        dhcp4: Option<bool>,
        gateway4: Option<String>,
        nameservers: Option<Nameservers>,
        optional: Option<bool>,
    ) -> (r: Nic)
        ensures
            r.deep_view() == (NicV {
                addresses: addresses.deep_view(),
                dhcp4,
                gateway4: gateway4.deep_view(),
                nameservers: nameservers.deep_view(),
                optional,
            }),
    {
        Nic { addresses, dhcp4, gateway4, nameservers, optional }
    }

    /// Interface settings with every field absent.
    pub fn unset() -> (r: Nic)
        ensures
            r.deep_view() == unset_nic(),
    {
        Nic { addresses: None, dhcp4: None, gateway4: None, nameservers: None, optional: None }
    }
}

impl Nameservers {
    /// Builds a nameserver block from its two role lists.
    #[must_use]
    pub fn new(addresses: Option<Vec<String>>, search: Option<Vec<String>>) -> (r: Nameservers)
        ensures
            r.deep_view() == (NameserversV {
                addresses: addresses.deep_view(),
                search: search.deep_view(),
            }),
    {
        Nameservers { addresses, search }
    }
}

/// Interface settings with every field absent, as a mathematical value.
pub open spec fn unset_nic() -> NicV {
    NicV { addresses: None, dhcp4: None, gateway4: None, nameservers: None, optional: None }
}

/// The simplified shape a full interface setting projects to: the
/// nameserver block is flattened to its address list; search domains are
/// dropped on this path.
pub open spec fn nic_to_output(n: NicV) -> NicOutputV {
    NicOutputV {
        addresses: n.addresses,
        dhcp4: n.dhcp4,
        gateway4: n.gateway4,
        nameservers: match n.nameservers {
            Some(ns) => ns.addresses,
            None => None,
        },
    }
}

/// The full shape a simplified interface setting expands to: the nameserver
/// address list is wrapped in a block whose search-domain list is empty, never
/// invented.
pub open spec fn output_to_nic(o: NicOutputV) -> NicV {
    NicV {
        addresses: o.addresses,
        dhcp4: o.dhcp4,
        gateway4: o.gateway4,
        nameservers: match o.nameservers {
            Some(a) => Some(NameserversV { addresses: Some(a), search: Some(Seq::empty()) }),
            None => None,
        },
        optional: None,
    }
}

impl NicOutput {
    /// Builds simplified interface settings from the given fields.
    #[must_use]
    pub fn new(
        addresses: Option<Vec<String>>,
        dhcp4: Option<bool>,
        gateway4: Option<String>,
        nameservers: Option<Vec<String>>,
    ) -> (r: NicOutput)
        ensures
            r.deep_view() == (NicOutputV {
                addresses: addresses.deep_view(),
                dhcp4,
                gateway4: gateway4.deep_view(),
                nameservers: nameservers.deep_view(),
            }),
    {
        NicOutput { addresses, dhcp4, gateway4, nameservers }
    }

    /// Expands to the full interface shape; the search-domain list comes back
    /// as empty, never as invented content.
    #[must_use]
    pub fn to(&self) -> (r: Nic)
        ensures
            r.deep_view() == output_to_nic(self.deep_view()),
    {
        let nameservers = match &self.nameservers {
            Some(nm) => {
                let empty: Vec<String> = Vec::new();
                assert(empty.deep_view() =~= Seq::<Seq<char>>::empty());
                Some(Nameservers { addresses: Some(clone_strings(nm)), search: Some(empty) })
            },
            None => None,
        };
        Nic {
            addresses: clone_opt_strings(&self.addresses),
            dhcp4: self.dhcp4,
            gateway4: clone_opt_string(&self.gateway4),
            nameservers,
            optional: None,
        }
    }

    /// Projects full interface settings down to the simplified shape; search
    /// domains are dropped.
    #[must_use]
    pub fn from(nic: &Nic) -> (r: NicOutput)
        ensures
            r.deep_view() == nic_to_output(nic.deep_view()),
    {
        let nameservers = match &nic.nameservers {
            Some(nm) => clone_opt_strings(&nm.addresses),
            None => None,
        };
        NicOutput {
            addresses: clone_opt_strings(&nic.addresses),
            dhcp4: nic.dhcp4,
            gateway4: clone_opt_string(&nic.gateway4),
            nameservers,
        }
    }
}

/// Copies a string, keeping its characters.
pub fn clone_string(s: &String) -> (r: String)
    ensures
        r@ == s@,
{
    s.clone()
}

/// Copies an optional string, keeping its characters.
pub fn clone_opt_string(o: &Option<String>) -> (r: Option<String>)
    ensures
        r.deep_view() == o.deep_view(),
{
    match o {
        Some(s) => Some(clone_string(s)),
        None => None,
    }
}

/// Copies a list of strings, keeping its contents.
pub fn clone_strings(v: &Vec<String>) -> (r: Vec<String>)
    ensures
        r.deep_view() == v.deep_view(),
{
    let mut r: Vec<String> = Vec::new();
    let mut i: usize = 0;
    while i < v.len()
        invariant
            i <= v.len(),
            r@.len() == i,
            forall|k: int| 0 <= k < i ==> r@[k]@ == v@[k]@,
        decreases v.len() - i,
    {
        r.push(clone_string(&v[i]));
        i = i + 1;
    }
    assert(r.deep_view() =~= v.deep_view());
    r
}

/// Copies an optional list of strings, keeping its contents.
pub fn clone_opt_strings(o: &Option<Vec<String>>) -> (r: Option<Vec<String>>)
    ensures
        r.deep_view() == o.deep_view(),
{
    match o {
        Some(v) => Some(clone_strings(v)),
        None => None,
    }
}

} // verus!
