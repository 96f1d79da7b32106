pub mod main_menu_state;
