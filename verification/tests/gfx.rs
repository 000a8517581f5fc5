//! Texture references of `.gfx` files.

use hearts_of_modding::gfx::{texture_references, TextureRef};
use hearts_of_modding::script::parse_script;

fn refs(content: &str, styling: bool) -> Vec<TextureRef> {
    let (script, errors) = parse_script(content);
    assert!(errors.is_empty(), "{:?}", errors);
    texture_references(&script.entries, &script.source, styling)
}

#[test]
fn texturefile_in_nested_sprite_blocks() {
    let content = r#"spriteTypes = {
        spriteType = {
            name = "GFX_a"
            texturefile = "gfx/interface/a.dds"
        }
        spriteType = {
            name = "GFX_b"
            textureFile = gfx/interface/b.dds
        }
    }"#;
    let r = refs(content, true);
    assert_eq!(r.len(), 2);
    assert_eq!(r[0].path, "gfx/interface/a.dds");
    assert_eq!(r[0].lookup, "gfx/interface/a.dds");
    assert!(r[0].suggestion.is_none());
    assert_eq!(r[0].range.start_line, 3);
    assert_eq!(r[1].path, "gfx/interface/b.dds");
    assert_eq!(r[1].range.start_line, 7);
}

#[test]
fn backslashes_are_looked_up_as_forward_slashes() {
    let content = r#"spriteTypes = {
            spriteType = {
                name = "GFX_styled"
                texturefile = "gfx\\interface\\styled.dds"
            }
        }"#;
    let r = refs(content, true);
    assert_eq!(r.len(), 1);
    assert_eq!(r[0].path, "gfx\\interface\\styled.dds");
    assert_eq!(r[0].lookup, "gfx/interface/styled.dds");
    assert_eq!(r[0].suggestion.as_deref(), Some("gfx/interface/styled.dds"));
}

#[test]
fn double_slashes_are_suggested_single() {
    let r = refs(r#"texturefile = "gfx//interface///x.dds""#, true);
    assert_eq!(r.len(), 1);
    assert_eq!(r[0].lookup, "gfx//interface///x.dds");
    assert_eq!(r[0].suggestion.as_deref(), Some("gfx/interface//x.dds"));
}

#[test]
fn no_suggestion_without_styling() {
    let r = refs(r#"texturefile = "gfx\\a//b.dds""#, false);
    assert_eq!(r.len(), 1);
    assert!(r[0].suggestion.is_none());
    assert_eq!(r[0].lookup, "gfx/a//b.dds");
}

#[test]
fn other_keys_and_non_string_values_are_ignored() {
    let content = "texture = \"a.dds\"\ntexturefile = { x = y }\ntexturefile = yes\nfoo = { texturefile = c.dds }";
    let r = refs(content, true);
    assert_eq!(r.len(), 1);
    assert_eq!(r[0].path, "c.dds");
}

#[test]
fn empty_file_has_no_references() {
    assert!(refs("", true).is_empty());
}
