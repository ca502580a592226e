// A builder in the infallible shape: every field defaults, setters take
// anything convertible and strip `Option`, and `build` cannot fail.

use unwrap_infallible::UnwrapInfallible;

#[derive(Default)]
struct Person {
    name: String,
    age: i64,
    birthday: Option<String>,
}

#[derive(Default)]
struct PersonBuilder {
    name: Option<String>,
    age: Option<i64>,
    birthday: Option<Option<String>>,
}

impl Person {
    fn builder() -> PersonBuilder {
        PersonBuilder::default()
    }
}

impl PersonBuilder {
    fn name<V: Into<String>>(mut self, value: V) -> Self {
        self.name = Some(value.into());
        self
    }

    fn age<V: Into<i64>>(mut self, value: V) -> Self {
        self.age = Some(value.into());
        self
    }

    fn birthday<V: Into<String>>(mut self, value: V) -> Self {
        self.birthday = Some(Some(value.into()));
        self
    }

    fn build_fallible(self) -> Result<Person, std::convert::Infallible> {
        let defaults = Person::default();
        Ok(Person {
            name: self.name.unwrap_or(defaults.name),
            age: self.age.unwrap_or(defaults.age),
            birthday: self.birthday.unwrap_or(defaults.birthday),
        })
    }

    fn build(self) -> Person {
        self.build_fallible().unwrap_infallible()
    }
}

#[test]
fn builder_sets_fields_correctly() {
    let person = Person::builder().name("Alice").age(30).build();
    assert_eq!(person.name, "Alice");
    assert_eq!(person.age, 30);
}

#[test]
fn builder_is_owned() {
    let mut person_builder = Person::builder();
    person_builder = person_builder.name("Bob");
    person_builder = person_builder.age(25);
    let person = person_builder.build();
    assert_eq!(person.name, "Bob");
    assert_eq!(person.age, 25);
}

#[test]
fn builder_uses_defaults() {
    let person = Person::builder().build();
    assert_eq!(person.name, "");
    assert_eq!(person.age, 0);
    assert_eq!(person.birthday, None);
}

#[test]
fn builder_strips_option() {
    // The builder should accept the inner type for Option fields
    let person = Person::builder().birthday("2000-01-01").build();
    assert_eq!(person.birthday, Some("2000-01-01".to_string()));
}
