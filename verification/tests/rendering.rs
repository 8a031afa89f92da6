use archetype_ecs::gfx::{
    draw_commands, draw_ids, has_ending, shader_kind, shader_resource_names, DrawCommand,
    ShaderKind,
};

#[test]
fn shader_kind_goes_by_the_ending() {
    assert_eq!(shader_kind("shaders/test.vert"), Some(ShaderKind::Vertex));
    assert_eq!(shader_kind("shaders/test.frag"), Some(ShaderKind::Fragment));
    assert_eq!(shader_kind(".vert"), Some(ShaderKind::Vertex));
    assert_eq!(shader_kind("a.frag.vert"), Some(ShaderKind::Vertex));
    assert_eq!(shader_kind("a.vert.frag"), Some(ShaderKind::Fragment));
}

#[test]
fn shader_kind_of_other_names_is_unknown() {
    assert_eq!(shader_kind(""), None);
    assert_eq!(shader_kind("vert"), None);
    assert_eq!(shader_kind("test.vert.glsl"), None);
    assert_eq!(shader_kind("test.VERT"), None);
    assert_eq!(shader_kind("test.fra"), None);
}

#[test]
fn endings_are_compared_by_character() {
    assert!(has_ending("schön.vert", ".vert"));
    assert!(has_ending("größe", "öße"));
    assert!(!has_ending("größe", "osse"));
    assert!(has_ending("abc", ""));
    assert!(has_ending("", ""));
    assert!(!has_ending("bc", "abc"));
    assert!(has_ending("abc", "abc"));
}

#[test]
fn program_names_its_two_shader_files() {
    assert_eq!(
        shader_resource_names("shaders/test"),
        vec!["shaders/test.vert".to_string(), "shaders/test.frag".to_string()]
    );
    assert_eq!(shader_resource_names(""), vec![".vert".to_string(), ".frag".to_string()]);
}

#[test]
fn draw_ids_count_the_instances() {
    assert_eq!(draw_ids(0), Vec::<u32>::new());
    assert_eq!(draw_ids(4), vec![0, 1, 2, 3]);
}

#[test]
fn each_instance_draws_the_whole_mesh_once() {
    assert_eq!(draw_commands(3, 0), Vec::<DrawCommand>::new());
    let commands = draw_commands(36, 3);
    assert_eq!(commands.len(), 3);
    for (i, command) in commands.iter().enumerate() {
        assert_eq!(
            *command,
            DrawCommand {
                count: 36,
                instance_count: 1,
                first_index: 0,
                base_vertex: 0,
                base_instance: i as u32
            }
        );
    }
}

#[test]
fn index_counts_beyond_32_bits_are_cut_down() {
    let commands = draw_commands(0x1_0000_0005, 1);
    assert_eq!(commands[0].count, 5);
}
