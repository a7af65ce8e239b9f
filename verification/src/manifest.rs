//! Data sources and templates as a manifest describes them, before the
//! modules that they refer to are there.
use std::sync::Arc;
use vstd::prelude::*;
use crate::data_source::{block_handler_views, context_view, event_handler_views, maybe_text, text_views, DataSource, DataSourceContext, DataSourceView, EventHandlerView, Link, Mapping, MappingBlockHandler, MappingEventHandler, MappingView, Source};
use crate::trigger::share;
use crate::version::{parse_version, version_in, Version};

verus! {

/// A mapping whose module is still to be had.
#[derive(Clone, Debug, Default, PartialEq, Eq)]
pub struct UnresolvedMapping {
    pub api_version: String,
    pub language: String,
    pub entities: Vec<String>,
    pub block_handlers: Vec<MappingBlockHandler>,
    pub event_handlers: Vec<MappingEventHandler>,
    pub file: Link,
}

/// A data source whose module is still to be had.
#[derive(Clone, Debug, PartialEq, Eq)]
pub struct UnresolvedDataSource {
    pub kind: String,
    pub network: Option<String>,
    pub name: String,
    pub source: Source,
    pub mapping: UnresolvedMapping,
    pub context: Option<DataSourceContext>,
}

/// A template whose module is still to be had.
#[derive(Clone, Debug, Default, PartialEq, Eq)]
pub struct UnresolvedDataSourceTemplate {
    pub kind: String,
    pub network: Option<String>,
    pub name: String,
    pub mapping: UnresolvedMapping,
}

/// A template for data sources.
#[derive(Clone, Debug)]
pub struct DataSourceTemplate {
    pub kind: String,
    pub network: Option<String>,
    pub name: String,
    pub mapping: Mapping,
}

/// What is known of a template without its chain.
#[derive(Debug)]
pub struct DataSourceTemplateInfo {
    pub api_version: Version,
    pub runtime: Option<Arc<Vec<u8>>>,
    pub name: String,
    pub manifest_idx: Option<u32>,
    pub kind: String,
}

/// The mathematical model of an `UnresolvedMapping`.
pub struct UnresolvedMappingView {
    pub api_version: Seq<char>,
    pub language: Seq<char>,
    pub entities: Seq<Seq<char>>,
    pub block_handlers: Seq<Seq<char>>,
    pub event_handlers: Seq<EventHandlerView>,
    pub file: Seq<char>,
}

impl View for UnresolvedMapping {
    type V = UnresolvedMappingView;

    open spec fn view(&self) -> UnresolvedMappingView {
        UnresolvedMappingView {
            api_version: self.api_version@,
            language: self.language@,
            entities: text_views(self.entities@),
            block_handlers: block_handler_views(self.block_handlers@),
            event_handlers: event_handler_views(self.event_handlers@),
            file: self.file.link@,
        }
    }
}

impl UnresolvedMappingView {
    /// The mapping with the given version and module.
    pub open spec fn resolved(
        self,
        version: (u64, u64, u64, Seq<char>, Seq<char>),
        module: Seq<u8>,
    ) -> MappingView {
        MappingView {
            api_version: version,
            language: self.language,
            entities: self.entities,
            block_handlers: self.block_handlers,
            event_handlers: self.event_handlers,
            runtime: module,
            link: self.file,
        }
    }
}

/// Why a mapping cannot be resolved.
#[derive(Debug)]
pub enum MappingError<E> {
    /// The module could not be had from `link`.
    Module { link: String, cause: E },
    /// The version of the interface is none.
    ApiVersion(semver::Error),
}

/// Why the data source or template of this name cannot be resolved.
#[derive(Debug)]
pub struct ResolveError<E> {
    pub name: String,
    pub cause: MappingError<E>,
}

/// Whether `cause` is what the mapping fails with when fetching its module
/// came out as `module`: a module that could not be had counts first, then a
/// version that is none.
pub open spec fn mapping_fails<E>(
    mapping: UnresolvedMappingView,
    module: Result<Vec<u8>, E>,
    cause: MappingError<E>,
) -> bool {
    match module {
        Err(e) => cause matches MappingError::Module { link, cause } && link@ == mapping.file
            && cause == e,
        Ok(_) => cause is ApiVersion && version_in(mapping.api_version) is None,
    }
}

/// Whether `mapping` is what the description gives when fetching its module
/// came out as `module`.
pub open spec fn mapping_resolves<E>(
    described: UnresolvedMappingView,
    module: Result<Vec<u8>, E>,
    mapping: MappingView,
) -> bool {
    match (module, version_in(described.api_version)) {
        (Ok(bytes), Some(version)) => mapping == described.resolved(version, bytes@),
        _ => false,
    }
}

impl UnresolvedMapping {
    /// The mapping with the given version and module.
    pub fn with_module(self, api_version: Version, module_bytes: Vec<u8>) -> (r: Mapping)
        ensures
            r@ == self@.resolved(api_version@, module_bytes@),
    {
        Mapping {
            api_version,
            language: self.language,
            entities: self.entities,
            block_handlers: self.block_handlers,
            event_handlers: self.event_handlers,
            runtime: Arc::new(module_bytes),
            link: self.file,
        }
    }

    /// The mapping, where fetching its module came out as `module`.
    pub fn resolve<E>(self, module: Result<Vec<u8>, E>) -> (r: Result<Mapping, MappingError<E>>)
        ensures
            match r {
                Ok(mapping) => mapping_resolves(self@, module, mapping@),
                Err(cause) => mapping_fails(self@, module, cause),
            },
    {
        let module_bytes = match module {
            Ok(module_bytes) => module_bytes,
            Err(cause) => return Err(MappingError::Module { link: self.file.link, cause }),
        };
        match parse_version(self.api_version.as_str()) {
            Ok(api_version) => Ok(self.with_module(api_version, module_bytes)),
            Err(e) => Err(MappingError::ApiVersion(e)),
        }
    }
}

impl UnresolvedDataSource {
    /// The data source, where fetching its module came out as `module`.
    pub fn resolve<E>(self, module: Result<Vec<u8>, E>) -> (r: Result<DataSource, ResolveError<E>>)
        ensures
            match r {
                Ok(source) => {
                    &&& mapping_resolves(self.mapping@, module, source@.mapping)
                    &&& source@ == (DataSourceView {
                        kind: self.kind@,
                        network: maybe_text(self.network),
                        name: self.name@,
                        source: self.source@,
                        mapping: source@.mapping,
                        context: context_view(self.context),
                        creation_block: None,
                    })
                },
                Err(e) => e.name@ == self.name@ && mapping_fails(self.mapping@, module, e.cause),
            },
    {
        match self.mapping.resolve(module) {
            Ok(mapping) => Ok(
                DataSource::from_manifest(
                    self.kind,
                    self.network,
                    self.name,
                    self.source,
                    mapping,
                    self.context,
                ),
            ),
            Err(cause) => Err(ResolveError { name: self.name, cause }),
        }
    }
}

impl UnresolvedDataSourceTemplate {
    /// The template, where fetching its module came out as `module`.
    pub fn resolve<E>(self, module: Result<Vec<u8>, E>) -> (r: Result<
        DataSourceTemplate,
        ResolveError<E>,
    >)
        ensures
            match r {
                Ok(template) => {
                    &&& mapping_resolves(self.mapping@, module, template.mapping@)
                    &&& template.kind@ == self.kind@
                    &&& maybe_text(template.network) == maybe_text(self.network)
                    &&& template.name@ == self.name@
                },
                Err(e) => e.name@ == self.name@ && mapping_fails(self.mapping@, module, e.cause),
            },
    {
        match self.mapping.resolve(module) {
            Ok(mapping) => Ok(
                DataSourceTemplate { kind: self.kind, network: self.network, name: self.name, mapping },
            ),
            Err(cause) => Err(ResolveError { name: self.name, cause }),
        }
    }
}

impl DataSourceTemplate {
    /// The version of the interface that the mapping is written against.
    pub fn api_version(&self) -> (r: Version)
        ensures
            r@ == self.mapping@.api_version,
    {
        self.mapping.api_version.clone()
    }

    /// The module that the handlers are in.
    pub fn runtime(&self) -> (r: Option<Arc<Vec<u8>>>)
        ensures
            r == Some(self.mapping.runtime),
    {
        Some(share(&self.mapping.runtime))
    }

    /// The name.
    pub fn name(&self) -> (r: &str)
        ensures
            r@ == self.name@,
    {
        self.name.as_str()
    }

    /// The kind.
    pub fn kind(&self) -> (r: &str)
        ensures
            r@ == self.kind@,
    {
        self.kind.as_str()
    }

    /// What is known of the template without its chain. It has no place in
    /// the manifest: data sources are not made from templates here.
    pub fn info(&self) -> (r: DataSourceTemplateInfo)
        ensures
            r.api_version@ == self.mapping@.api_version,
            r.runtime == Some(self.mapping.runtime),
            r.name@ == self.name@,
            r.manifest_idx is None,
            r.kind@ == self.kind@,
    {
        DataSourceTemplateInfo {
            api_version: self.api_version(),
            runtime: self.runtime(),
            name: self.name.clone(),
            manifest_idx: None,
            kind: self.kind.clone(),
        }
    }
}

/// Data sources cannot be made while a subgraph runs.
#[derive(Clone, Copy, Debug, PartialEq, Eq)]
pub struct DynamicDataSource;

impl DynamicDataSource {
    /// The message for it.
    pub fn message(&self) -> (r: &'static str)
        ensures
            r@ == "Aztec subgraphs do not support dynamic data sources in this POC"@,
    {
        "Aztec subgraphs do not support dynamic data sources in this POC"
    }
}

impl DataSource {
    /// A data source made from a template: there is none, whatever is given.
    pub fn from_template_info() -> (r: Result<DataSource, DynamicDataSource>)
        ensures
            r == Err::<DataSource, DynamicDataSource>(DynamicDataSource),
    {
        Err(DynamicDataSource)
    }

    /// A data source that was stored: there is none, whatever is given.
    pub fn from_stored_dynamic_data_source() -> (r: Result<DataSource, DynamicDataSource>)
        ensures
            r == Err::<DataSource, DynamicDataSource>(DynamicDataSource),
    {
        Err(DynamicDataSource)
    }
}

/// A mapping is resolved exactly where its module could be had and its version
/// can be read. It then has that version and that module, and all else as it
/// was described. A module that could not be had counts before a version that
/// cannot be read.
pub proof fn law_resolved<E>(
    described: UnresolvedMappingView,
    module: Result<Vec<u8>, E>,
    mapping: MappingView,
    cause: MappingError<E>,
)
    ensures
        mapping_resolves(described, module, mapping) ==> {
            &&& module is Ok
            &&& version_in(described.api_version) == Some(mapping.api_version)
            &&& mapping.runtime == module->Ok_0@
            &&& mapping.language == described.language
            &&& mapping.entities == described.entities
            &&& mapping.block_handlers == described.block_handlers
            &&& mapping.event_handlers == described.event_handlers
            &&& mapping.link == described.file
        },
        mapping_fails(described, module, cause) ==> module is Err || version_in(
            described.api_version,
        ) is None,
        mapping_fails(described, module, cause) && module is Err ==> cause is Module && cause->link@
            == described.file && cause->cause == module->Err_0,
        mapping_fails(described, module, cause) && module is Ok ==> cause is ApiVersion,
{
}

/// The model of what is described holds what is described.
pub proof fn law_model_of_description(mapping: UnresolvedMapping, k: int)
    ensures
        mapping@.api_version == mapping.api_version@,
        mapping@.language == mapping.language@,
        mapping@.file == mapping.file.link@,
        mapping@.entities.len() == mapping.entities@.len(),
        0 <= k < mapping.entities@.len() ==> mapping@.entities[k] == mapping.entities@[k]@,
        mapping@.block_handlers.len() == mapping.block_handlers@.len(),
        0 <= k < mapping.block_handlers@.len() ==> mapping@.block_handlers[k]
            == mapping.block_handlers@[k].handler@,
        mapping@.event_handlers.len() == mapping.event_handlers@.len(),
        0 <= k < mapping.event_handlers@.len() ==> mapping@.event_handlers[k]
            == mapping.event_handlers@[k]@,
{
}

} // verus!
