use voxel_bricks::color::process_curr_color_idx;

fn names(list: &[&str]) -> Vec<String> {
    list.iter().map(|s| s.to_string()).collect()
}

#[test]
fn second_declared_material_gets_index_one() {
    let colors = names(&["red", "green"]);
    let mut idx: usize = 0;
    process_curr_color_idx(&"green".to_string(), &colors, &mut idx);
    assert_eq!(idx, 1);
}

#[test]
fn first_declared_material_gets_index_zero() {
    let colors = names(&["red", "green"]);
    let mut idx: usize = 7;
    process_curr_color_idx(&"red".to_string(), &colors, &mut idx);
    assert_eq!(idx, 0);
}

#[test]
fn undeclared_material_gets_the_list_length() {
    let colors = names(&["red", "green"]);
    let mut idx: usize = 0;
    process_curr_color_idx(&"blue".to_string(), &colors, &mut idx);
    assert_eq!(idx, 2);
}

#[test]
fn empty_material_list_gives_zero() {
    let colors: Vec<String> = Vec::new();
    let mut idx: usize = 9;
    process_curr_color_idx(&"red".to_string(), &colors, &mut idx);
    assert_eq!(idx, 0);
}

#[test]
fn duplicate_name_takes_the_first_position() {
    let colors = names(&["a", "b", "a"]);
    let mut idx: usize = 5;
    process_curr_color_idx(&"a".to_string(), &colors, &mut idx);
    assert_eq!(idx, 0);
}
