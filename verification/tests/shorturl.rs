use tack::shorturl::{expand, normalize_git_ref, ShortUrls};

fn urls() -> ShortUrls {
    let mut u = ShortUrls::new();
    u.insert(
        "atagen".into(),
        "git+https://git.lobotomise.me/atagen/{path}".into(),
    );
    u.insert("amaan".into(), "github:amaanq/{path}".into());
    u.insert("wry".into(), "git+ssh://forgejo@git.wry.land/{path}".into());
    u
}

#[test]
fn passthrough_and_github() {
    let u = urls();
    assert_eq!(
        expand("github:NixOS/nixpkgs/nixos-unstable", &u),
        "github:NixOS/nixpkgs/nixos-unstable"
    );
    assert_eq!(
        expand("amaan:helium-flake", &u),
        "github:amaanq/helium-flake"
    );
}

#[test]
fn git_triple_slash_remapped() {
    let u = urls();
    assert_eq!(
        expand("atagen:meat", &u),
        "git+https://git.lobotomise.me/atagen/meat"
    );
    assert_eq!(
        expand("wry:entailz/toes", &u),
        "git+ssh://forgejo@git.wry.land/entailz/toes"
    );
    assert_eq!(
        expand("atagen:proj/branch", &u),
        "git+https://git.lobotomise.me/atagen/proj?ref=branch"
    );
    assert_eq!(
        expand("wry:owner/repo/branch", &u),
        "git+ssh://forgejo@git.wry.land/owner/repo?ref=branch"
    );
}

#[test]
fn existing_query_preserved() {
    let u = urls();
    assert_eq!(
        expand("wry:wry/wry?ref=anims-multiphase", &u),
        "git+ssh://forgejo@git.wry.land/wry/wry?ref=anims-multiphase"
    );
}

#[test]
fn url_without_colon_passes_through() {
    let u = urls();
    assert_eq!(expand("plainpath", &u), "plainpath");
}

#[test]
fn template_with_two_placeholders_replaces_both() {
    let mut u = ShortUrls::new();
    u.insert("d".into(), "github:{path}/{path}".into());
    assert_eq!(expand("d:x", &u), "github:x/x");
}

#[test]
fn alias_insert_replaces_template() {
    let mut u = urls();
    u.insert("amaan".into(), "gitlab:amaanq/{path}".into());
    assert_eq!(expand("amaan:f", &u), "gitlab:amaanq/f");
    assert_eq!(u.get(&['a', 'm', 'a', 'a', 'n']).map(|s| s.as_str()), Some("gitlab:amaanq/{path}"));
    assert!(u.get(&['n', 'o']).is_none());
}

#[test]
fn normalize_twice_is_once() {
    for u in [
        "git+https://git.lobotomise.me/atagen/proj/branch",
        "git+https://x.y/a/b/c/d",
        "git+ssh://forgejo@git.wry.land/wry/wry?ref=anims-multiphase",
        "github:NixOS/nixpkgs",
    ] {
        let once = normalize_git_ref(u);
        assert_eq!(normalize_git_ref(&once), once);
    }
    assert_eq!(normalize_git_ref("git+https://x.y/a/b/c/d"), "git+https://x.y/a/b/c?ref=d");
}
