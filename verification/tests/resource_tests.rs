use pervade::resource::ResourceId;
use pervade::resource::sanitize_identifier;
use pervade::resource::stabilize_resource_id;

#[test]
fn test_stabilize_resource_id() {
    let cwd = "/work/project";

    // absolute path below the working directory
    assert_eq!(stabilize_resource_id("/work/project/src/main.js", cwd), "src/main.js");

    // absolute path outside the working directory
    assert_eq!(stabilize_resource_id("/other/src/main.js", cwd), "/other/src/main.js");

    // non-path specifier
    assert_eq!(stabilize_resource_id("fs", cwd), "fs");
    assert_eq!(
        stabilize_resource_id("https://deno.land/x/oak/mod.ts", cwd),
        "https://deno.land/x/oak/mod.ts"
    );

    // virtual module
    assert_eq!(stabilize_resource_id("\0foo", cwd), "\\0foo");
    assert_eq!(stabilize_resource_id("virtual\0foo", cwd), "virtual\0foo");
}

#[test]
fn test_resource_id_accessors() {
    let id = ResourceId::new(String::from("/work/a.js"));
    assert_eq!(id.as_str(), "/work/a.js");
    assert_eq!(id.stabilize("/work"), "a.js");
    assert_eq!(id.duplicate().as_str(), "/work/a.js");
}

#[test]
fn test_unique_name_sanitizes() {
    let id = ResourceId::new(String::from("/work/a-b.js"));
    assert_eq!(id.unique_name(), "_work_a_b_js");
    assert_eq!(sanitize_identifier("ok_name$1"), "ok_name$1");
    assert_eq!(sanitize_identifier("a b/c"), "a_b_c");
}
