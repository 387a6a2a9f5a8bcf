//! The fixed parts of the emitted files.
use vstd::prelude::*;

verus! {

/// The licence at the top of each file.
pub const LICENSE_BANNER: &'static str = r#"/*
 * Copyright (c) 2025 Blue Robotics North Inc.
 * 
 * Permission is hereby granted, free of charge, to any person obtaining a copy
 * of this software and associated documentation files (the "Software"), to deal
 * in the Software without restriction, including without limitation the rights
 * to use, copy, modify, merge, publish, distribute, sublicense, and/or sell
 * copies of the Software, and to permit persons to whom the Software is
 * furnished to do so, subject to the following conditions:
 * 
 * The above copyright notice and this permission notice shall be included in all
 * copies or substantial portions of the Software.
 * 
 * THE SOFTWARE IS PROVIDED "AS IS", WITHOUT WARRANTY OF ANY KIND, EXPRESS OR
 * IMPLIED, INCLUDING BUT NOT LIMITED TO THE WARRANTIES OF MERCHANTABILITY,
 * FITNESS FOR A PARTICULAR PURPOSE AND NONINFRINGEMENT. IN NO EVENT SHALL THE
 * AUTHORS OR COPYRIGHT HOLDERS BE LIABLE FOR ANY CLAIM, DAMAGES OR OTHER
 * LIABILITY, WHETHER IN AN ACTION OF CONTRACT, TORT OR OTHERWISE, ARISING FROM,
 * OUT OF OR IN CONNECTION WITH THE SOFTWARE OR THE USE OR OTHER DEALINGS IN THE
 * SOFTWARE.
 */

"#;

/// The warning below the licence.
pub const AUTOGEN_BANNER: &'static str = "//*************************************************************************************\n//*************************************************************************************\n//ATTENTION! THIS FILE WAS AUTOGENERATED BY THE BLUEBERRY SCHEMA PARSER.\n//It's probably not a good idea to modify it. :-P\n//*************************************************************************************\n//*************************************************************************************\n";

/// The banner of the included files.
pub const SECTION_INCLUDES: &'static str = "//*************************************************************************************\n//Includes\n//*************************************************************************************\n";

/// The banner of the macros.
pub const SECTION_DEFINES: &'static str = "//*************************************************************************************\n//Defines\n//*************************************************************************************\n";

/// The banner of the types.
pub const SECTION_TYPES: &'static str = "//*************************************************************************************\n//Types\n//*************************************************************************************\n";

/// The banner of the variables.
pub const SECTION_VARIABLES: &'static str = "//*************************************************************************************\n//Variables\n//*************************************************************************************\n";

/// The banner of the topic constants.
pub const SECTION_TOPICS: &'static str = "//*************************************************************************************\n//Topic String Constants\n//*************************************************************************************\n";

/// The banner of the function prototypes.
pub const SECTION_PROTOTYPES: &'static str = "//*************************************************************************************\n//Function Prototypes\n//*************************************************************************************\n";

/// The banner of the functions.
pub const SECTION_SOURCE: &'static str = "//*************************************************************************************\n//Source\n//*************************************************************************************\n";

} // verus!
