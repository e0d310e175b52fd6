use feed_tools::loader::AdvisoriesLoader;

#[derive(Debug, PartialEq, Eq)]
enum LoadError {
    Unknown(String),
    Broken(String),
}

struct Shelf {
    known: Vec<(String, Vec<String>)>,
    broken: Vec<String>,
}

impl AdvisoriesLoader for Shelf {
    type Advisories = Vec<String>;
    type Error = LoadError;

    fn load_package_advisories(&self, os: &str) -> Result<Vec<String>, LoadError> {
        if self.broken.iter().any(|name| name == os) {
            return Err(LoadError::Broken(os.to_string()));
        }
        match self.known.iter().find(|(name, _)| name == os) {
            Some((_, advisories)) => Ok(advisories.clone()),
            None => Err(LoadError::Unknown(os.to_string())),
        }
    }
}

fn shelf() -> Shelf {
    Shelf {
        known: vec![("debian_10".to_string(), vec!["1.3.6.1.4.1.25623.1.0.1".to_string()])],
        broken: vec!["debian_9".to_string()],
    }
}

fn load<L: AdvisoriesLoader>(loader: &L, os: &str) -> Result<L::Advisories, L::Error> {
    loader.load_package_advisories(os)
}

#[test]
fn load_package_advisories_gives_what_the_loader_holds() {
    assert_eq!(load(&shelf(), "debian_10"), Ok(vec!["1.3.6.1.4.1.25623.1.0.1".to_string()]));
}

#[test]
fn load_package_advisories_tells_its_failures_apart() {
    assert_eq!(load(&shelf(), "debian_11"), Err(LoadError::Unknown("debian_11".to_string())));
    assert_eq!(load(&shelf(), "debian_9"), Err(LoadError::Broken("debian_9".to_string())));
}
