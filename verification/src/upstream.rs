//! Upstreams and what their files hold.

use serde_yaml_ng::Value;
use vstd::prelude::*;

use crate::node::Tree;
use crate::text::opt_text;
use crate::yaml::{value_tree, value_trees};

verus! {

/// Key-slot settings for one upstream, rendered into the Lua `slot_config`.
#[derive(Debug)]
pub struct Slots {
    pub direct_env: String,
    pub cloud: bool,
    pub disabled: bool,
    pub auth_header: Option<String>,
    pub auth_prefix: String,
}

/// What one upstream's file holds.
#[derive(Debug)]
pub struct UpstreamFile {
    pub slots: Option<Slots>,
    pub routes: Vec<Value>,
    pub clusters: Vec<Value>,
}

/// A provider and its file.
#[derive(Debug)]
pub struct Upstream {
    pub provider: String,
    pub file: UpstreamFile,
}

/// The model of [`Slots`].
pub struct SlotsView {
    pub direct_env: Seq<char>,
    pub cloud: bool,
    pub disabled: bool,
    pub auth_header: Option<Seq<char>>,
    pub auth_prefix: Seq<char>,
}

/// The model of an [`UpstreamFile`].
pub struct UpstreamFileView {
    pub slots: Option<SlotsView>,
    pub routes: Seq<Tree>,
    pub clusters: Seq<Tree>,
}

/// The model of an [`Upstream`].
pub struct UpstreamView {
    pub provider: Seq<char>,
    pub file: UpstreamFileView,
}

impl View for Slots {
    type V = SlotsView;

    open spec fn view(&self) -> SlotsView {
        SlotsView {
            direct_env: self.direct_env@,
            cloud: self.cloud,
            disabled: self.disabled,
            auth_header: opt_text(self.auth_header),
            auth_prefix: self.auth_prefix@,
        }
    }
}

impl View for UpstreamFile {
    type V = UpstreamFileView;

    open spec fn view(&self) -> UpstreamFileView {
        UpstreamFileView {
            slots: match self.slots {
                Some(slots) => Some(slots@),
                None => None,
            },
            routes: value_trees(self.routes@),
            clusters: value_trees(self.clusters@),
        }
    }
}

impl View for Upstream {
    type V = UpstreamView;

    open spec fn view(&self) -> UpstreamView {
        UpstreamView { provider: self.provider@, file: self.file@ }
    }
}

/// The models of a list of upstreams.
pub open spec fn upstream_views(upstreams: Seq<Upstream>) -> Seq<UpstreamView> {
    Seq::new(upstreams.len(), |i: int| upstreams[i]@)
}

/// The model of an upstream keeps its provider and each part of its file.
pub proof fn upstream_is_kept(upstream: Upstream, k: int)
    ensures
        upstream@.provider == upstream.provider@,
        upstream@.file == upstream.file@,
        upstream.file@.slots is Some <==> upstream.file.slots is Some,
        upstream.file.slots matches Some(slots) ==> {
            &&& upstream.file@.slots->0.direct_env == slots.direct_env@
            &&& upstream.file@.slots->0.cloud == slots.cloud
            &&& upstream.file@.slots->0.disabled == slots.disabled
            &&& upstream.file@.slots->0.auth_prefix == slots.auth_prefix@
            &&& match slots.auth_header {
                Some(header) => upstream.file@.slots->0.auth_header == Some(header@),
                None => upstream.file@.slots->0.auth_header is None,
            }
        },
        upstream.file@.routes.len() == upstream.file.routes@.len(),
        0 <= k < upstream.file.routes@.len() ==> upstream.file@.routes[k] == value_tree(
            upstream.file.routes@[k],
        ),
        upstream.file@.clusters.len() == upstream.file.clusters@.len(),
        0 <= k < upstream.file.clusters@.len() ==> upstream.file@.clusters[k] == value_tree(
            upstream.file.clusters@[k],
        ),
{
}

/// Every upstream of a list is kept, in its place.
pub proof fn upstreams_are_kept(upstreams: Seq<Upstream>, i: int)
    ensures
        upstream_views(upstreams).len() == upstreams.len(),
        0 <= i < upstreams.len() ==> upstream_views(upstreams)[i] == upstreams[i]@,
{
}

} // verus!
