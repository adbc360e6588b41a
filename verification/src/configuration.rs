//! The rules that drive a run: where the source is, which trees are targets,
//! which names are left out and where matching entries are linked to.

use crate::document::{json_views, parse_json, parsed_json, Json, JsonView};
use crate::text::{lowercase, texts, to_lowercase};
use vstd::prelude::*;

verus! {

/// What a run works from.
#[derive(Eq, PartialEq, Debug)]
pub struct Configuration {
    /// The directory whose entries are linked to. A run needs one.
    pub source: Option<String>,
    /// The directories in which links are looked for. A run needs one at least.
    pub targets: Vec<String>,
    /// Lower-case names of entries that are left out.
    pub excludes: Vec<String>,
    /// The routing rules, in the order in which they apply.
    pub link_maps: Vec<LinkMap>,
}

/// The mathematical value of a [`Configuration`].
pub ghost struct ConfigurationView {
    pub source: Option<Seq<char>>,
    pub targets: Seq<Seq<char>>,
    pub excludes: Seq<Seq<char>>,
    pub link_maps: Seq<LinkMapView>,
}

impl View for Configuration {
    type V = ConfigurationView;

    open spec fn view(&self) -> ConfigurationView {
        ConfigurationView {
            source: match self.source {
                Some(path) => Some(path@),
                None => None,
            },
            targets: texts(self.targets@),
            excludes: texts(self.excludes@),
            link_maps: rules(self.link_maps@),
        }
    }
}

/// The configuration that names nothing.
pub open spec fn empty_configuration() -> ConfigurationView {
    ConfigurationView {
        source: None,
        targets: Seq::empty(),
        excludes: Seq::empty(),
        link_maps: Seq::empty(),
    }
}

impl Clone for Configuration {
    fn clone(&self) -> (res: Self)
        ensures
            res@ == self@,
    {
        let res = Configuration {
            source: match &self.source {
                Some(path) => Some(path.clone()),
                None => None,
            },
            targets: self.targets.clone(),
            excludes: self.excludes.clone(),
            link_maps: self.link_maps.clone(),
        };
        proof {
            assert forall|i: int| 0 <= i < self.targets@.len() implies res.targets@[i]@
                == self.targets@[i]@ by {
                assert(cloned::<String>(self.targets@[i], res.targets@[i]));
            }
            assert forall|i: int| 0 <= i < self.excludes@.len() implies res.excludes@[i]@
                == self.excludes@[i]@ by {
                assert(cloned::<String>(self.excludes@[i], res.excludes@[i]));
            }
            assert forall|i: int| 0 <= i < self.link_maps@.len() implies res.link_maps@[i]@
                == self.link_maps@[i]@ by {
                assert(cloned::<LinkMap>(self.link_maps@[i], res.link_maps@[i]));
            }
            assert(res@.targets =~= self@.targets);
            assert(res@.excludes =~= self@.excludes);
            assert(res@.link_maps =~= self@.link_maps);
        }
        res
    }
}

impl Default for Configuration {
    fn default() -> (made: Configuration)
        ensures
            made@ == empty_configuration(),
    {
        let made = Configuration {
            source: None,
            targets: Vec::new(),
            excludes: Vec::new(),
            link_maps: Vec::new(),
        };
        assert(made@.targets =~= Seq::empty());
        assert(made@.excludes =~= Seq::empty());
        assert(made@.link_maps =~= Seq::empty());
        made
    }
}

impl Configuration {
    /// Whether a run can start from this configuration: it names a source
    /// and one target at least.
    pub open spec fn is_complete(&self) -> bool {
        self.source is Some && self.targets@.len() > 0
    }

    /// Tells whether a run can start from this configuration.
    pub fn can_run(&self) -> (complete: bool)
        ensures
            complete == self.is_complete(),
    {
        self.source.is_some() && self.targets.len() > 0
    }
}

/// One routing rule: entries whose name matches `regex` are linked into the
/// directory `target`.
#[derive(Eq, PartialEq, Debug)]
pub struct LinkMap {
    pub regex: String,
    pub target: String,
}

/// The mathematical value of a [`LinkMap`].
pub ghost struct LinkMapView {
    pub regex: Seq<char>,
    pub target: Seq<char>,
}

impl View for LinkMap {
    type V = LinkMapView;

    open spec fn view(&self) -> LinkMapView {
        LinkMapView { regex: self.regex@, target: self.target@ }
    }
}

/// The values of a list of rules, in their order.
pub open spec fn rules(link_maps: Seq<LinkMap>) -> Seq<LinkMapView> {
    link_maps.map_values(|link_map: LinkMap| link_map@)
}

impl LinkMap {
    /// A rule from its two parts. Every pair of texts makes a rule.
    pub fn new(regex: String, target: String) -> (made: Result<LinkMap, String>)
        ensures
            made == Ok::<LinkMap, String>(LinkMap { regex, target }),
    {
        Ok(LinkMap { regex, target })
    }
}

impl Clone for LinkMap {
    fn clone(&self) -> (res: Self)
        ensures
            res@ == self@,
    {
        LinkMap { regex: self.regex.clone(), target: self.target.clone() }
    }
}

/// Why a text is no configuration.
#[derive(Clone, Copy, PartialEq, Eq, Debug)]
pub enum ConfigurationError {
    /// The text is no well-formed JSON.
    Malformed,
    /// The list of targets holds something that is no string.
    InvalidTarget,
    /// The list of excludes holds something that is no string.
    InvalidExclude,
}

/// A source path counts only where it is not empty.
pub open spec fn valid_source(path: Seq<char>) -> Option<Seq<char>> {
    if path.len() > 0 {
        Some(path)
    } else {
        None
    }
}

/// The source that a document names: its member `source`, where that is a
/// string and not empty.
pub open spec fn source_of(data: JsonView) -> Option<Seq<char>> {
    match data.text_member("source"@) {
        Some(path) => valid_source(path),
        None => None,
    }
}

/// Whether every item is a string.
pub open spec fn holds_texts(items: Seq<JsonView>) -> bool {
    forall|i: int| 0 <= i < items.len() ==> (#[trigger] items[i]) is Text
}

/// The texts of items that are strings, in their order.
pub open spec fn texts_of(items: Seq<JsonView>) -> Seq<Seq<char>> {
    Seq::new(items.len(), |i: int| items[i]->Text_0)
}

/// The targets that a document names: the items of its member `targets`,
/// none where that is no list.
pub open spec fn targets_of(data: JsonView) -> Seq<Seq<char>> {
    match data.list_member("targets"@) {
        Some(items) => texts_of(items),
        None => Seq::empty(),
    }
}

/// The excludes that a document names: the items of its member `excludes`
/// in lower case, none where that is no list.
pub open spec fn excludes_of(data: JsonView) -> Seq<Seq<char>> {
    match data.list_member("excludes"@) {
        Some(items) => texts_of(items).map_values(|name: Seq<char>| lowercase(name)),
        None => Seq::empty(),
    }
}

/// The rule that an item of `linkMaps` stands for: none unless its members
/// `regex` and `target` are both strings and neither is empty.
pub open spec fn link_map_of(item: JsonView) -> Option<LinkMapView> {
    match (item.text_member("regex"@), item.text_member("target"@)) {
        (Some(regex), Some(target)) => if regex.len() > 0 && target.len() > 0 {
            Some(LinkMapView { regex, target })
        } else {
            None
        },
        _ => None,
    }
}

/// The rules that a list of items stands for, in its order; items that stand
/// for no rule are passed over.
pub open spec fn link_maps_from(items: Seq<JsonView>) -> Seq<LinkMapView>
    decreases items.len(),
{
    if items.len() == 0 {
        Seq::empty()
    } else {
        match link_map_of(items.last()) {
            Some(link_map) => link_maps_from(items.drop_last()).push(link_map),
            None => link_maps_from(items.drop_last()),
        }
    }
}

/// The rules that a document names: those of its member `linkMaps`, none
/// where that is no list.
pub open spec fn link_maps_of(data: JsonView) -> Seq<LinkMapView> {
    match data.list_member("linkMaps"@) {
        Some(items) => link_maps_from(items),
        None => Seq::empty(),
    }
}

/// Whether the targets of a document can be read: where it has a list of
/// them, the list holds strings only.
pub open spec fn targets_are_texts(data: JsonView) -> bool {
    data.list_member("targets"@) is Some ==> holds_texts(data.list_member("targets"@)->Some_0)
}

/// Whether the excludes of a document can be read: where it has a list of
/// them, the list holds strings only.
pub open spec fn excludes_are_texts(data: JsonView) -> bool {
    data.list_member("excludes"@) is Some ==> holds_texts(data.list_member("excludes"@)->Some_0)
}

/// The configuration that a document stands for.
pub open spec fn configuration_of(data: JsonView) -> ConfigurationView {
    ConfigurationView {
        source: source_of(data),
        targets: targets_of(data),
        excludes: excludes_of(data),
        link_maps: link_maps_of(data),
    }
}

/// What reading `text` as a configuration gives: the empty configuration
/// for the empty text, else the configuration of the JSON document, or the
/// reason why there is none.
pub open spec fn read_from(text: Seq<char>) -> Result<ConfigurationView, ConfigurationError> {
    if text.len() == 0 {
        Ok(empty_configuration())
    } else {
        match parsed_json(text) {
            None => Err(ConfigurationError::Malformed),
            Some(data) => if !targets_are_texts(data) {
                Err(ConfigurationError::InvalidTarget)
            } else if !excludes_are_texts(data) {
                Err(ConfigurationError::InvalidExclude)
            } else {
                Ok(configuration_of(data))
            },
        }
    }
}

/// Reads a configuration from JSON text, or says why it cannot be read.
pub fn try_parse_configuration(configuration: &str) -> (read: Result<
    Configuration,
    ConfigurationError,
>)
    ensures
        match read {
            Ok(made) => read_from(configuration@) == Ok::<ConfigurationView, ConfigurationError>(
                made@,
            ),
            Err(error) => read_from(configuration@) == Err::<
                ConfigurationView,
                ConfigurationError,
            >(error),
        },
{
    if configuration.is_empty() {
        return Ok(Configuration::default());
    }
    match parse_json(configuration) {
        None => Err(ConfigurationError::Malformed),
        Some(data) => {
            let targets_hold_texts = match data.list_member("targets") {
                Some(items) => all_texts(items.as_slice()),
                None => true,
            };
            let excludes_hold_texts = match data.list_member("excludes") {
                Some(items) => all_texts(items.as_slice()),
                None => true,
            };
            if !targets_hold_texts {
                Err(ConfigurationError::InvalidTarget)
            } else if !excludes_hold_texts {
                Err(ConfigurationError::InvalidExclude)
            } else {
                Ok(parse_configuration(configuration))
            }
        },
    }
}

/// Reads a configuration from JSON text that can be read as one.
pub fn parse_configuration(configuration: &str) -> (made: Configuration)
    requires
        read_from(configuration@) is Ok,
    ensures
        read_from(configuration@) == Ok::<ConfigurationView, ConfigurationError>(made@),
{
    if configuration.is_empty() {
        return Configuration::default();
    }
    match parse_json(configuration) {
        Some(data) => configuration_from(&data),
        None => Configuration::default(),
    }
}

/// The configuration that a document stands for: see [`configuration_of`].
pub fn configuration_from(data: &Json) -> (made: Configuration)
    requires
        targets_are_texts(data@),
        excludes_are_texts(data@),
    ensures
        made@ == configuration_of(data@),
{
    Configuration {
        source: map_source(data),
        targets: map_targets(data),
        excludes: map_excludes(data),
        link_maps: map_link_maps(data),
    }
}

/// Whether every item of a list is a string.
pub fn all_texts(items: &[Json]) -> (all: bool)
    ensures
        all == holds_texts(json_views(items@)),
{
    let mut i: usize = 0;
    while i < items.len()
        invariant
            i <= items.len(),
            forall|j: int| 0 <= j < i ==> (#[trigger] json_views(items@)[j]) is Text,
        decreases items.len() - i,
    {
        assert(json_views(items@)[i as int] == items@[i as int]@);
        match &items[i] {
            Json::Text(_) => {},
            _ => {
                return false;
            },
        }
        i += 1;
    }
    true
}

/// See [`source_of`].
pub fn map_source(data: &Json) -> (source: Option<String>)
    ensures
        match source {
            Some(path) => source_of(data@) == Some(path@),
            None => source_of(data@) is None,
        },
{
    match data.text_member("source") {
        Some(path) => map_valid_source(path.as_str()),
        None => None,
    }
}

/// See [`valid_source`].
pub fn map_valid_source(v: &str) -> (source: Option<String>)
    ensures
        match source {
            Some(path) => valid_source(v@) == Some(path@),
            None => valid_source(v@) is None,
        },
{
    if !v.is_empty() {
        Some(v.to_owned())
    } else {
        None
    }
}

/// See [`targets_of`].
pub fn map_targets(data: &Json) -> (targets: Vec<String>)
    requires
        targets_are_texts(data@),
    ensures
        texts(targets@) == targets_of(data@),
{
    match data.list_member("targets") {
        Some(value) => map_valid_targets(value.as_slice()),
        None => {
            let targets: Vec<String> = Vec::new();
            assert(texts(targets@) =~= Seq::empty());
            targets
        },
    }
}

/// The texts of a list of strings.
pub fn map_valid_targets(value: &[Json]) -> (targets: Vec<String>)
    requires
        holds_texts(json_views(value@)),
    ensures
        texts(targets@) == texts_of(json_views(value@)),
{
    let mut targets: Vec<String> = Vec::new();
    let mut i: usize = 0;
    while i < value.len()
        invariant
            i <= value.len(),
            holds_texts(json_views(value@)),
            targets@.len() == i,
            forall|j: int| 0 <= j < i ==> (#[trigger] targets@[j])@ == value@[j]@->Text_0,
        decreases value.len() - i,
    {
        assert(json_views(value@)[i as int] == value@[i as int]@);
        match &value[i] {
            Json::Text(text) => {
                targets.push(text.clone());
            },
            _ => {
                assert(false);
            },
        }
        i += 1;
    }
    assert(texts(targets@) =~= texts_of(json_views(value@)));
    targets
}

/// See [`excludes_of`].
pub fn map_excludes(data: &Json) -> (excludes: Vec<String>)
    requires
        excludes_are_texts(data@),
    ensures
        texts(excludes@) == excludes_of(data@),
{
    match data.list_member("excludes") {
        Some(value) => map_valid_excludes(value.as_slice()),
        None => {
            let excludes: Vec<String> = Vec::new();
            assert(texts(excludes@) =~= Seq::empty());
            excludes
        },
    }
}

/// The texts of a list of strings, in lower case.
pub fn map_valid_excludes(value: &[Json]) -> (excludes: Vec<String>)
    requires
        holds_texts(json_views(value@)),
    ensures
        texts(excludes@) == texts_of(json_views(value@)).map_values(
            |name: Seq<char>| lowercase(name),
        ),
{
    let names = map_valid_targets(value);
    let mut excludes: Vec<String> = Vec::new();
    let mut i: usize = 0;
    while i < names.len()
        invariant
            i <= names.len(),
            excludes@.len() == i,
            forall|j: int| 0 <= j < i ==> (#[trigger] excludes@[j])@ == lowercase(names@[j]@),
        decreases names.len() - i,
    {
        excludes.push(to_lowercase(names[i].as_str()));
        i += 1;
    }
    assert(texts(excludes@) =~= texts(names@).map_values(|name: Seq<char>| lowercase(name)));
    excludes
}

/// See [`link_maps_of`].
pub fn map_link_maps(data: &Json) -> (link_maps: Vec<LinkMap>)
    ensures
        rules(link_maps@) == link_maps_of(data@),
{
    match data.list_member("linkMaps") {
        Some(value) => map_valid_link_maps(value.as_slice()),
        None => {
            let link_maps: Vec<LinkMap> = Vec::new();
            assert(rules(link_maps@) =~= Seq::empty());
            link_maps
        },
    }
}

/// See [`link_maps_from`].
pub fn map_valid_link_maps(value: &[Json]) -> (link_maps: Vec<LinkMap>)
    ensures
        rules(link_maps@) == link_maps_from(json_views(value@)),
{
    let mut link_maps: Vec<LinkMap> = Vec::new();
    assert(rules(link_maps@) =~= Seq::empty());
    let mut i: usize = 0;
    while i < value.len()
        invariant
            i <= value.len(),
            rules(link_maps@) == link_maps_from(json_views(value@.take(i as int))),
        decreases value.len() - i,
    {
        proof {
            let done = json_views(value@.take(i as int));
            let next = json_views(value@.take(i + 1));
            assert(next.drop_last() =~= done);
            assert(next.last() == value@[i as int]@);
        }
        let item = &value[i];
        match (item.text_member("regex"), item.text_member("target")) {
            (Some(regex), Some(target)) => {
                if !regex.as_str().is_empty() && !target.as_str().is_empty() {
                    match LinkMap::new(regex.clone(), target.clone()) {
                        Ok(link_map) => {
                            assert(rules(link_maps@.push(link_map)) =~= rules(link_maps@).push(
                                link_map@,
                            ));
                            link_maps.push(link_map);
                        },
                        Err(_) => {},
                    }
                }
            },
            _ => {},
        }
        i += 1;
    }
    assert(value@.take(i as int) =~= value@);
    link_maps
}

} // verus!
