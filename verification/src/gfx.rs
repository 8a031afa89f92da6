//! What the renderer works out on plain values before it talks to the
//! graphics driver: the kind of a shader from the name of its file, and the
//! tables of an indirect multi-draw call.

use vstd::prelude::*;
use vstd::string::{StrSliceExecFns, StringExecFns};

verus! {

/// The stage of the pipeline that a shader runs in.
#[derive(Debug, Clone, Copy, PartialEq, Eq, Structural)]
pub enum ShaderKind {
    Vertex,
    Fragment,
}

/// `text` ends with `ending`.
pub open spec fn ends_with(text: Seq<char>, ending: Seq<char>) -> bool {
    ending.len() <= text.len() && text.subrange(text.len() - ending.len(), text.len() as int)
        == ending
}

/// The kind that the name of a shader file stands for: vertex for names
/// that end in `.vert`, fragment for names that end in `.frag`.
pub open spec fn kind_of(name: Seq<char>) -> Option<ShaderKind> {
    if ends_with(name, ".vert"@) {
        Some(ShaderKind::Vertex)
    } else if ends_with(name, ".frag"@) {
        Some(ShaderKind::Fragment)
    } else {
        None
    }
}

/// Tells whether `name` ends with `ending`.
pub fn has_ending(name: &str, ending: &str) -> (b: bool)
    ensures
        b == ends_with(name@, ending@),
{
    let n: usize = name.unicode_len();
    let m: usize = ending.unicode_len();
    if m > n {
        return false;
    }
    let tail = String::from_str(name.substring_char(n - m, n));
    let wanted = String::from_str(ending);
    tail == wanted
}

/// The kind of the shader in the file called `name`, or `None` when the
/// name has neither of the two endings.
pub fn shader_kind(name: &str) -> (k: Option<ShaderKind>)
    ensures
        k == kind_of(name@),
{
    if has_ending(name, ".vert") {
        Some(ShaderKind::Vertex)
    } else if has_ending(name, ".frag") {
        Some(ShaderKind::Fragment)
    } else {
        None
    }
}

/// The names of the two shader files of the program called `name`: the
/// vertex shader first, then the fragment shader.
pub fn shader_resource_names(name: &str) -> (names: Vec<String>)
    ensures
        names@.len() == 2,
        names@[0]@ == name@ + ".vert"@,
        names@[1]@ == name@ + ".frag"@,
{
    let mut names: Vec<String> = Vec::new();
    names.push(String::from_str(name).concat(".vert"));
    names.push(String::from_str(name).concat(".frag"));
    names
}

/// One command of an indirect multi-draw call, as plain numbers.
#[derive(Debug, Clone, Copy, PartialEq, Eq, Structural)]
pub struct DrawCommand {
    /// Number of indices to draw.
    pub count: u32,
    /// Number of instances to draw.
    pub instance_count: u32,
    /// Position of the first index.
    pub first_index: u32,
    /// What is added to each index.
    pub base_vertex: i32,
    /// Number of the first instance.
    pub base_instance: u32,
}

/// The command for instance `instance` of a mesh with `index_count`
/// indices: the whole mesh, once. Numbers beyond 32 bits are cut down to
/// their lower 32 bits.
pub open spec fn draw_command(index_count: usize, instance: int) -> DrawCommand {
    DrawCommand {
        count: index_count as u32,
        instance_count: 1,
        first_index: 0,
        base_vertex: 0,
        base_instance: instance as u32,
    }
}

/// The draw identifiers of `instances` instances: their numbers, in order.
pub fn draw_ids(instances: usize) -> (ids: Vec<u32>)
    ensures
        ids@.len() == instances,
        forall|i: int| 0 <= i < instances ==> ids@[i] == i as u32,
{
    let mut ids: Vec<u32> = Vec::new();
    let mut i: usize = 0;
    while i < instances
        invariant
            i <= instances,
            ids@.len() == i,
            forall|j: int| 0 <= j < i ==> ids@[j] == j as u32,
        decreases instances - i,
    {
        ids.push(#[verifier::truncate] (i as u32));
        i = i + 1;
    }
    ids
}

/// The draw commands for `instances` instances of one mesh with
/// `index_count` indices: one command for each instance, in order.
pub fn draw_commands(index_count: usize, instances: usize) -> (commands: Vec<DrawCommand>)
    ensures
        commands@.len() == instances,
        forall|i: int| 0 <= i < instances ==> commands@[i] == draw_command(index_count, i),
{
    let mut commands: Vec<DrawCommand> = Vec::new();
    let mut i: usize = 0;
    while i < instances
        invariant
            i <= instances,
            commands@.len() == i,
            forall|j: int| 0 <= j < i ==> commands@[j] == draw_command(index_count, j),
        decreases instances - i,
    {
        commands.push(
            DrawCommand {
                count: #[verifier::truncate] (index_count as u32),
                instance_count: 1,
                first_index: 0,
                base_vertex: 0,
                base_instance: #[verifier::truncate] (i as u32),
            },
        );
        i = i + 1;
    }
    commands
}

} // verus!
