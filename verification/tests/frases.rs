use tareas::prestamos;
use tareas::propiedad;
use tareas::rebanadas;

#[test]
fn da_un_ownership_hands_out_a_fresh_string() {
    assert_eq!(propiedad::da_un_ownership(), "tuyo".to_string());
}

#[test]
fn toma_y_devuelve_returns_the_same_string() {
    let s = String::from("hola");
    assert_eq!(propiedad::toma_y_devuelve(s), "hola".to_string());
}

#[test]
fn calcular_longitud_returns_string_and_length() {
    let s = String::from("hola");
    let (s2, len) = propiedad::calcular_longitud(s);
    assert_eq!(s2, "hola".to_string());
    assert_eq!(len, 4);
}

#[test]
fn colgar_returns_an_owned_string() {
    assert_eq!(propiedad::colgar(), "hola".to_string());
}

#[test]
fn calcular_longitud_of_a_borrowed_string() {
    let s = String::from("hola");
    assert_eq!(prestamos::calcular_longitud(&s), 4);
    assert_eq!(s, "hola".to_string());
}

#[test]
fn first_word_index_of_a_borrowed_string() {
    let s = String::from("hello world");
    assert_eq!(prestamos::first_word(&s), 5);
}

#[test]
fn first_word_index_without_a_space_is_the_length() {
    let s = String::from("hello");
    assert_eq!(prestamos::first_word(&s), 5);
}

#[test]
fn first_word_slice_of_a_string_with_a_space() {
    let my_string = String::from("hello world");
    assert_eq!(rebanadas::first_word(&my_string), "hello");
    assert_eq!(rebanadas::first_word(&my_string[0..6]), "hello");
}

#[test]
fn first_word_slice_without_a_space_is_the_whole() {
    assert_eq!(rebanadas::first_word("hello"), "hello");
    assert_eq!(rebanadas::first_word(""), "");
}
