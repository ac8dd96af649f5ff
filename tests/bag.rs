use std::cell::Cell;

use texture_bag::{BagError, Registry, TextureBag};

fn registry(text: &str) -> Registry {
    match Registry::from_json(text) {
        Ok(r) => r,
        Err(e) => panic!("configuration refused: {:?}", e),
    }
}

fn two_textures() -> Registry {
    registry(r#"{"textures": {"brick": "brick.png", "grass": "grass.png"}}"#)
}

/// A materializer that counts its calls and hands out the call number.
fn counting(calls: &Cell<u32>) -> impl Fn(&String) -> Result<u32, String> + '_ {
    move |_path: &String| {
        calls.set(calls.get() + 1);
        Ok(calls.get())
    }
}

#[test]
fn lazy_scenario_brick_then_grass() {
    let calls = Cell::new(0);
    let mut bag: TextureBag<u32> = TextureBag::init_lazy(two_textures());
    assert_eq!(bag.cached_count(), 0);

    assert!(bag.get_texture("brick".to_string(), counting(&calls)).is_ok());
    assert_eq!(bag.cached_count(), 1);
    assert!(bag.is_cached(&"brick".to_string()));

    bag.forget("brick".to_string());
    assert_eq!(bag.cached_count(), 0);

    assert!(bag.get_texture("grass".to_string(), counting(&calls)).is_ok());
    assert_eq!(bag.cached_count(), 1);
    assert!(bag.is_cached(&"grass".to_string()));
    assert!(!bag.is_cached(&"brick".to_string()));

    match bag.get_texture("stone".to_string(), counting(&calls)) {
        Err(BagError::UnknownTextureId(id)) => assert_eq!(id, "stone"),
        other => panic!("expected an unknown identifier, got {:?}", other),
    }
    assert_eq!(calls.get(), 2);
}

#[test]
fn second_get_returns_the_cached_handle() {
    let calls = Cell::new(0);
    let mut bag: TextureBag<u32> = TextureBag::init_lazy(two_textures());
    let first = *bag.get_texture("grass".to_string(), counting(&calls)).unwrap();
    let second = *bag.get_texture("grass".to_string(), counting(&calls)).unwrap();
    assert_eq!(first, 1);
    assert_eq!(second, 1);
    assert_eq!(calls.get(), 1);
}

#[test]
fn materializer_receives_the_locator() {
    let mut bag: TextureBag<String> = TextureBag::init_lazy(two_textures());
    let got = bag
        .get_texture("brick".to_string(), |p: &String| -> Result<String, ()> {
            Ok(format!("loaded {}", p))
        })
        .unwrap()
        .clone();
    assert_eq!(got, "loaded brick.png");
}

#[test]
fn forget_then_get_materializes_once_more() {
    let calls = Cell::new(0);
    let mut bag: TextureBag<u32> = TextureBag::init_lazy(two_textures());
    assert_eq!(*bag.get_texture("brick".to_string(), counting(&calls)).unwrap(), 1);
    bag.forget("brick".to_string());
    assert_eq!(*bag.get_texture("brick".to_string(), counting(&calls)).unwrap(), 2);
    assert_eq!(*bag.get_texture("brick".to_string(), counting(&calls)).unwrap(), 2);
    assert_eq!(calls.get(), 2);
}

#[test]
fn forget_of_uncached_identifier_is_noop() {
    let calls = Cell::new(0);
    let mut bag: TextureBag<u32> = TextureBag::init_lazy(two_textures());
    bag.forget("brick".to_string());
    bag.forget("nothing".to_string());
    assert_eq!(bag.cached_count(), 0);
    bag.get_texture("grass".to_string(), counting(&calls)).unwrap();
    bag.forget("brick".to_string());
    assert_eq!(bag.cached_count(), 1);
    assert!(bag.is_cached(&"grass".to_string()));
}

#[test]
fn unknown_identifier_fails_whatever_is_cached() {
    let calls = Cell::new(0);
    let mut lazy: TextureBag<u32> = TextureBag::init_lazy(two_textures());
    assert!(matches!(
        lazy.get_texture("stone".to_string(), counting(&calls)),
        Err(BagError::UnknownTextureId(_))
    ));
    let mut eager: TextureBag<u32> = TextureBag::init_eager(two_textures(), counting(&calls)).unwrap();
    let before = calls.get();
    assert!(matches!(
        eager.get_texture("stone".to_string(), counting(&calls)),
        Err(BagError::UnknownTextureId(_))
    ));
    assert_eq!(calls.get(), before);
    assert_eq!(eager.cached_count(), 2);
}

#[test]
fn eager_materializes_each_entry_once() {
    let calls = Cell::new(0);
    let config = registry(r#"{"textures": {"a": "a.png", "b": "b.png", "c": "c.png"}}"#);
    assert_eq!(config.len(), 3);
    let mut bag: TextureBag<u32> = TextureBag::init_eager(config, counting(&calls)).unwrap();
    assert_eq!(calls.get(), 3);
    assert_eq!(bag.cached_count(), 3);
    bag.get_texture("b".to_string(), counting(&calls)).unwrap();
    assert_eq!(calls.get(), 3);
}

#[test]
fn lazy_starts_empty() {
    let config = registry(r#"{"textures": {"a": "a.png", "b": "b.png", "c": "c.png"}}"#);
    let bag: TextureBag<u32> = TextureBag::init_lazy(config);
    assert_eq!(bag.cached_count(), 0);
    assert_eq!(bag.registry_ref().len(), 3);
}

#[test]
fn eager_fails_on_first_failed_materialization() {
    let result: Result<TextureBag<u32>, String> = TextureBag::init_eager(two_textures(), |p: &String| {
        if p == "grass.png" {
            Err(format!("cannot decode {}", p))
        } else {
            Ok(7)
        }
    });
    match result {
        Err(e) => assert_eq!(e, "cannot decode grass.png"),
        Ok(_) => panic!("eager construction should fail"),
    }
}

#[test]
fn failed_materialization_caches_nothing() {
    let mut bag: TextureBag<u32> = TextureBag::init_lazy(two_textures());
    match bag.get_texture("brick".to_string(), |_p: &String| -> Result<u32, String> {
        Err("missing file".to_string())
    }) {
        Err(BagError::Load(e)) => assert_eq!(e, "missing file"),
        other => panic!("expected a load error, got {:?}", other),
    }
    assert_eq!(bag.cached_count(), 0);
}

#[test]
fn empty_registry() {
    let calls = Cell::new(0);
    let config = registry(r#"{"textures": {}}"#);
    assert_eq!(config.len(), 0);
    let bag: TextureBag<u32> = TextureBag::init_eager(config, counting(&calls)).unwrap();
    assert_eq!(bag.cached_count(), 0);
    assert_eq!(calls.get(), 0);
}
