use casserole::store::json::JSONMemorySHA1;
use casserole::{casserole_stored, decasserole_stored, Casserole, Encode};

use std::collections::BTreeMap;
use std::convert::Infallible;

#[derive(Debug, Eq, PartialEq)]
struct Test {
    x: u32,
    y: u32,
    b: bool,

    // stored: folded into a store key
    complex: MyMap,
}

#[derive(Debug, Eq, PartialEq)]
struct MyMap {
    field: u32,

    // stored: folded into a store key
    map: BTreeMap<u32, Test>,
}

impl MyMap {
    fn new() -> Self {
        Self {
            field: 0,
            map: BTreeMap::new(),
        }
    }
}

/// The folded form of `Test`.
struct TestFolded {
    x: u32,
    y: u32,
    b: bool,
    complex: String,
}

/// The folded form of `MyMap`.
struct MyMapFolded {
    field: u32,
    map: String,
}

impl Encode for TestFolded {
    fn encode(&self) -> Vec<u8> {
        serde_json::to_vec(&(self.x, self.y, self.b, &self.complex)).unwrap()
    }

    fn decode(bytes: &[u8]) -> Option<Self> {
        let (x, y, b, complex): (u32, u32, bool, String) = serde_json::from_slice(bytes).ok()?;
        Some(TestFolded { x, y, b, complex })
    }
}

impl Encode for MyMapFolded {
    fn encode(&self) -> Vec<u8> {
        serde_json::to_vec(&(self.field, &self.map)).unwrap()
    }

    fn decode(bytes: &[u8]) -> Option<Self> {
        let (field, map): (u32, String) = serde_json::from_slice(bytes).ok()?;
        Some(MyMapFolded { field, map })
    }
}

impl Casserole<JSONMemorySHA1> for Test {
    type Target = TestFolded;

    fn casserole(&self, store: &mut JSONMemorySHA1) -> Result<TestFolded, Infallible> {
        Ok(TestFolded {
            x: self.x.casserole(store)?,
            y: self.y.casserole(store)?,
            b: self.b.casserole(store)?,
            complex: casserole_stored(&self.complex, store)?,
        })
    }

    fn decasserole(target: &TestFolded, store: &mut JSONMemorySHA1) -> Result<Self, Infallible> {
        Ok(Test {
            x: Casserole::decasserole(&target.x, store)?,
            y: Casserole::decasserole(&target.y, store)?,
            b: Casserole::decasserole(&target.b, store)?,
            complex: decasserole_stored(&target.complex, store)?,
        })
    }
}

impl Casserole<JSONMemorySHA1> for MyMap {
    type Target = MyMapFolded;

    fn casserole(&self, store: &mut JSONMemorySHA1) -> Result<MyMapFolded, Infallible> {
        let field = self.field.casserole(store)?;
        let map = casserole_stored(&self.map, store)?;
        Ok(MyMapFolded { field, map })
    }

    fn decasserole(target: &MyMapFolded, store: &mut JSONMemorySHA1) -> Result<Self, Infallible> {
        let field = Casserole::decasserole(&target.field, store)?;
        let map = decasserole_stored(&target.map, store)?;
        Ok(MyMap { field, map })
    }
}

#[test]
fn it_works() {
    println!();

    let mut store = JSONMemorySHA1::new();

    let v = MyMap {
        field: 3,
        map: vec![
            (
                10000,
                Test {
                    x: 100,
                    y: 10,
                    b: true,
                    complex: MyMap {
                        field: 3,
                        map: vec![
                            (
                                999,
                                Test {
                                    x: 100,
                                    y: 10,
                                    b: true,
                                    complex: MyMap::new(),
                                },
                            ),
                            (
                                998,
                                Test {
                                    x: 100,
                                    y: 10,
                                    b: true,
                                    complex: MyMap::new(),
                                },
                            ),
                        ]
                        .into_iter()
                        .collect(),
                    },
                },
            ),
            (
                20000,
                Test {
                    x: 100,
                    y: 10,
                    b: true,
                    complex: MyMap {
                        field: 10,
                        map: vec![].into_iter().collect(),
                    },
                },
            ),
        ]
        .into_iter()
        .collect(),
    };

    let _stored = v.casserole(&mut store).unwrap();

    let mut vec: Vec<_> = store.items();
    vec.sort();

    for (k, v) in vec.drain(..) {
        println!("{}: {}", k, std::str::from_utf8(&v).unwrap());
    }

    let restored: MyMap = Casserole::decasserole(&_stored, &mut store).unwrap();
    assert_eq!(restored, v);
}
