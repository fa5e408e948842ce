use grove::template::{expand_template, replace_all, HookContext};

#[test]
fn test_expand_template() {
    let ctx = HookContext {
        path: "/repo/.git/wt/a1",
        branch: "feature/auth",
        id: "a1",
        repo: "/repo",
    };

    let result = expand_template("mise trust {{path}} && echo {{branch}}", &ctx);
    assert_eq!(result, "mise trust /repo/.git/wt/a1 && echo feature/auth");
}

#[test]
fn expand_template_fills_every_variable() {
    let ctx = HookContext { path: "/p", branch: "b", id: "7", repo: "/r" };
    assert_eq!(
        expand_template("cp -r {{path}}/data {{repo}}/backup/{{id}}-{{branch}} {{path}}", &ctx),
        "cp -r /p/data /r/backup/7-b /p"
    );
    assert_eq!(expand_template("npm ci", &ctx), "npm ci");
    let odd = HookContext { path: "{{bra", branch: "b", id: "7", repo: "/r" };
    assert_eq!(expand_template("{{path}}nch}}", &odd), "b");
    let braces = HookContext { path: "/p{1}", branch: "b", id: "7", repo: "/r" };
    assert_eq!(expand_template("awk '{print}' {{path}} ${HOME}", &braces), "awk '{print}' /p{1} ${HOME}");
}

#[test]
fn replace_all_replaces_left_to_right() {
    assert_eq!(replace_all("aaa", "aa", "b"), "ba");
    assert_eq!(replace_all("{{id}}{{id}}", "{{id}}", "7"), "77");
}
