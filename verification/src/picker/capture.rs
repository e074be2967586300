//! Output discovery.
//!
//! Tracks the monitors that the compositor announces and their geometry, which
//! the capture uses to crop the full-desktop image per output.

use crate::ids::{find_id, lemma_place_of, place_of};
use std::collections::HashMap;
use vstd::prelude::*;

verus! {

broadcast use vstd::std_specs::hash::group_hash_axioms;

/// What the compositor says of an output.
#[derive(Debug, PartialEq, Eq)]
pub struct OutputInfo {
    /// Connector name (e.g. `"DP-1"`).
    pub name: Option<String>,
    /// Location in the compositor's space.
    pub location: (i32, i32),
    /// Logical position in the compositor's space.
    pub logical_position: Option<(i32, i32)>,
    /// Logical size.
    pub logical_size: Option<(i32, i32)>,
}

impl Clone for OutputInfo {
    fn clone(&self) -> (r: Self)
        ensures
            r == *self,
    {
        OutputInfo {
            name: match &self.name {
                Some(name) => Some(name.clone()),
                None => None,
            },
            location: self.location,
            logical_position: self.logical_position,
            logical_size: self.logical_size,
        }
    }
}

/// Where the compositor's socket is: in the runtime directory, under the name of
/// the display.
pub fn socket_path(runtime_dir: &str, display: Option<String>) -> (r: String)
    ensures
        r@ == runtime_dir@ + "/"@ + (match display {
            Some(name) => name@,
            None => "wayland-1"@,
        }),
{
    let mut path = String::new();
    path.append(runtime_dir);
    path.append("/");
    match display {
        Some(name) => {
            path.append(name.as_str());
        },
        None => {
            path.append("wayland-1");
        },
    }
    assert(path@ =~= runtime_dir@ + "/"@ + (match display {
        Some(name) => name@,
        None => "wayland-1"@,
    }));
    path
}

/// Metadata for a captured output from the portal.
#[derive(Debug, PartialEq, Eq)]
pub struct PortalOutputInfo {
    pub name: String,
    pub pos_x: i32,
    pub pos_y: i32,
    pub logical_width: u32,
    pub logical_height: u32,
}

/// The outputs that are known, by keys, and what is known of each.
pub struct CaptureHelper {
    outputs: Vec<u64>,
    output_infos: HashMap<u64, OutputInfo>,
}

impl CaptureHelper {
    /// The outputs in the order of their discovery.
    pub closed spec fn listed(self) -> Seq<u64> {
        self.outputs@
    }

    /// What is known of the outputs.
    pub closed spec fn infos(self) -> Map<u64, OutputInfo> {
        self.output_infos@
    }

    /// No outputs yet.
    #[must_use]
    pub fn new() -> (r: Self)
        ensures
            r.listed() == Seq::<u64>::empty(),
            r.infos() == Map::<u64, OutputInfo>::empty(),
    {
        CaptureHelper { outputs: Vec::new(), output_infos: HashMap::new() }
    }

    /// List all known outputs.
    #[must_use]
    pub fn outputs(&self) -> (r: Vec<u64>)
        ensures
            r@ == self.listed(),
    {
        let mut all: Vec<u64> = Vec::new();
        all.extend_from_slice(self.outputs.as_slice());
        assert(all@ =~= self.outputs@);
        all
    }

    /// Get the output info for a given output.
    #[must_use]
    pub fn output_info(&self, output: u64) -> (r: Option<OutputInfo>)
        ensures
            r == if self.infos().dom().contains(output) {
                Some(self.infos()[output])
            } else {
                None
            },
    {
        match self.output_infos.get(&output) {
            Some(info) => Some(info.clone()),
            None => None,
        }
    }

    fn set_output_info(&mut self, output: u64, info: Option<OutputInfo>)
        ensures
            final(self).listed() == old(self).listed(),
            final(self).infos() == match info {
                Some(i) => old(self).infos().insert(output, i),
                None => old(self).infos().remove(output),
            },
    {
        match info {
            Some(i) => {
                self.output_infos.insert(output, i);
            },
            None => {
                self.output_infos.remove(&output);
            },
        }
    }

    /// An output was announced.
    pub fn new_output(&mut self, output: u64, info: Option<OutputInfo>)
        ensures
            final(self).listed() == old(self).listed().push(output),
            final(self).infos() == match info {
                Some(i) => old(self).infos().insert(output, i),
                None => old(self).infos().remove(output),
            },
    {
        self.set_output_info(output, info);
        self.outputs.push(output);
    }

    /// An output's geometry changed.
    pub fn update_output(&mut self, output: u64, info: Option<OutputInfo>)
        ensures
            final(self).listed() == old(self).listed(),
            final(self).infos() == match info {
                Some(i) => old(self).infos().insert(output, i),
                None => old(self).infos().remove(output),
            },
    {
        self.set_output_info(output, info);
    }

    /// An output went away.
    pub fn output_destroyed(&mut self, output: u64)
        ensures
            final(self).infos() == old(self).infos().remove(output),
            match place_of(old(self).listed(), output) {
                Some(i) => final(self).listed() == old(self).listed().remove(i),
                None => final(self).listed() == old(self).listed(),
            },
    {
        self.set_output_info(output, None);
        if let Some(idx) = find_id(&self.outputs, output) {
            self.outputs.remove(idx);
        }
    }
}

impl Default for CaptureHelper {
    fn default() -> (r: Self)
        ensures
            r.listed() == Seq::<u64>::empty(),
            r.infos() == Map::<u64, OutputInfo>::empty(),
    {
        Self::new()
    }
}

/// An output that is announced and goes away again leaves the others as they
/// were.
pub proof fn law_output_comes_and_goes(
    listed: Seq<u64>,
    infos: Map<u64, OutputInfo>,
    output: u64,
    info: OutputInfo,
)
    requires
        !listed.contains(output),
        !infos.dom().contains(output),
    ensures
        place_of(listed.push(output), output) == Some(listed.len() as int),
        listed.push(output).remove(listed.len() as int) == listed,
        infos.insert(output, info).remove(output) == infos,
{
    let grown = listed.push(output);
    lemma_place_of(grown, output);
    assert(grown[listed.len() as int] == output);
    let i = place_of(grown, output)->0;
    if i < listed.len() {
        assert(listed[i] == output);
    }
    assert(grown.remove(listed.len() as int) =~= listed);
    assert(infos.insert(output, info).remove(output) =~= infos);
}

} // verus!
