use rengine::modding::{is_hidden_name, mod_name};

#[test]
fn mod_names() {
    assert!(mod_name("my_mod"));
    assert!(mod_name("Mod-2"));
    assert!(!mod_name(""));
    assert!(!mod_name("my mod"));
    assert!(!mod_name("mod.lua"));
    assert!(!mod_name("mød"));
}

#[test]
fn hidden_names() {
    assert!(is_hidden_name(".git"));
    assert!(is_hidden_name("."));
    assert!(!is_hidden_name("mods"));
    assert!(!is_hidden_name(""));
    assert!(!is_hidden_name("a.b"));
}
